use dataflow_core::arrangement::Frontier;
use dataflow_core::render::{
    advance_by, build_compute_dataflow, decimal_text, has_recursion, is_over_limit, render_plan,
    render_recursive_plan, route_update, BuildDesc, CollectionBundle, Context,
    DataflowDescription, EvalError, Export, Id, JoinPlan, LetRecLimit, Operator, Plan, Product,
    RenderError, RenderTimestamp, Routing, SuppressEarlyProgress, Timestamp,
};
use std::collections::BTreeSet;

fn constant(rows: Vec<(u64, u64, i64)>) -> Plan {
    Plan::Constant { rows, error: None }
}

fn get(id: Id) -> Plan {
    Plan::Get { id, identity: true }
}

fn context() -> Context {
    Context::new(Frontier::minimum(), Frontier::empty())
}

fn description(objects: Vec<BuildDesc>) -> DataflowDescription {
    DataflowDescription {
        source_imports: vec![],
        index_imports: vec![],
        objects_to_build: objects,
        index_exports: vec![],
        sink_exports: vec![],
        as_of: None,
        until: Frontier::empty(),
    }
}

/// `X = {0} ∪ { x + 1 | x ∈ X, x < 10 }`, as a plan.
fn counting(limit: Option<LetRecLimit>) -> Plan {
    Plan::LetRec {
        ids: vec![7],
        values: vec![Plan::Union {
            inputs: vec![
                constant(vec![(0, 0, 1)]),
                Plan::Mfp { input: Box::new(get(Id::Local(7))), identity: false },
            ],
            consolidate_output: true,
        }],
        limits: vec![limit],
        body: Box::new(get(Id::Local(7))),
    }
}

#[test]
fn recursive_binding_with_limit() {
    // The iterations of `X = {0} ∪ { x + 1 | x ∈ X, x < 10 }`, with the
    // library deciding what becomes of the updates of every iteration.
    let limit = Some(LetRecLimit { max_iters: 5, return_at_limit: false });
    let mut variable: BTreeSet<u64> = BTreeSet::new();
    let mut oks: BTreeSet<u64> = BTreeSet::new();
    let mut errs: Vec<EvalError> = Vec::new();
    let mut iteration: u64 = 0;
    loop {
        let mut value: BTreeSet<u64> = variable.iter().filter(|x| **x < 10).map(|x| x + 1).collect();
        value.insert(0);
        let news: Vec<u64> = value.difference(&oks).cloned().collect();
        if news.is_empty() {
            break;
        }
        oks.extend(news.iter().cloned());
        let routing = route_update(iteration, limit);
        if routing.fed_back {
            variable.extend(news);
        }
        if let Some(e) = routing.error {
            // The errors of a binding are kept once each.
            if !errs.contains(&e) {
                errs.push(e);
            }
        }
        iteration += 1;
    }
    assert_eq!(oks.into_iter().collect::<Vec<_>>(), vec![0, 1, 2, 3, 4]);
    assert_eq!(errs, vec![EvalError::LetRecLimitExceeded("5".to_owned())]);
}

#[test]
fn updates_are_routed_by_the_limit() {
    let strict = LetRecLimit { max_iters: 5, return_at_limit: false };
    let lenient = LetRecLimit { max_iters: 5, return_at_limit: true };
    assert_eq!(route_update(3, Some(strict)), Routing { fed_back: true, error: None });
    assert_eq!(
        route_update(4, Some(strict)),
        Routing { fed_back: false, error: Some(EvalError::LetRecLimitExceeded("5".to_owned())) }
    );
    assert_eq!(route_update(4, Some(lenient)), Routing { fed_back: false, error: None });
    assert_eq!(route_update(3, Some(lenient)), Routing { fed_back: true, error: None });
    assert_eq!(route_update(u64::MAX, None), Routing { fed_back: true, error: None });
    assert!(!is_over_limit(3, strict));
    assert!(is_over_limit(4, strict));
    assert!(is_over_limit(u64::MAX, strict));
    assert!(is_over_limit(0, LetRecLimit { max_iters: 1, return_at_limit: false }));
    let greatest = LetRecLimit { max_iters: u64::MAX, return_at_limit: false };
    assert!(!is_over_limit(u64::MAX - 2, greatest));
    assert!(is_over_limit(u64::MAX - 1, greatest));
}

#[test]
fn numbers_are_written_in_decimal() {
    assert_eq!(decimal_text(0), "0");
    assert_eq!(decimal_text(5), "5");
    assert_eq!(decimal_text(10), "10");
    assert_eq!(decimal_text(1234567890), "1234567890");
    assert_eq!(decimal_text(u64::MAX), "18446744073709551615");
}

#[test]
fn a_recursive_binding_is_rendered_around_its_variables() {
    let mut ctx = context();
    let limit = LetRecLimit { max_iters: 5, return_at_limit: false };
    let bundle = render_recursive_plan(&mut ctx, 0, &counting(Some(limit))).unwrap();
    let operators: Vec<Operator> = ctx.nodes.iter().map(|n| n.operator.clone()).collect();
    assert_eq!(
        operators,
        vec![
            // The variables of the binding: its rows and its errors.
            Operator::Variable { level: 1 },
            Operator::Variable { level: 1 },
            // The value: the constant, the mapped variable, and their union.
            Operator::Constant { rows: vec![(0, 0, 1)] },
            Operator::ConstantErrors { error: None, time: 0 },
            Operator::Mfp { input: 0 },
            Operator::EvalErrors { input: 1, of: 4 },
            Operator::Concat { inputs: vec![2, 4] },
            Operator::Consolidate { input: 6 },
            Operator::Concat { inputs: vec![3, 5] },
            // What closes the loop.
            Operator::Consolidate { input: 7 },
            Operator::WithinLimit { input: 9, level: 0, max_iters: 5 },
            Operator::LimitExceeded { input: 9, errors: 8, level: 0, max_iters: 5 },
            Operator::Distinct { input: 11 },
            // The binding outside the iterations.
            Operator::Leave { input: 7, level: 1 },
            Operator::Leave { input: 8, level: 1 },
        ]
    );
    assert_eq!(ctx.definitions, vec![(0, 10), (1, 12)]);
    assert_eq!(bundle, CollectionBundle { oks: 13, errs: 14 });
    assert!(ctx.bindings.is_empty());
}

#[test]
fn limits_shape_what_closes_the_loop() {
    let mut ctx = context();
    render_recursive_plan(&mut ctx, 0, &counting(None)).unwrap();
    let tail: Vec<Operator> = ctx.nodes[9..11].iter().map(|n| n.operator.clone()).collect();
    assert_eq!(
        tail,
        vec![Operator::Consolidate { input: 7 }, Operator::Distinct { input: 8 }]
    );
    assert_eq!(ctx.definitions, vec![(0, 9), (1, 10)]);

    let mut ctx = context();
    let limit = LetRecLimit { max_iters: 3, return_at_limit: true };
    render_recursive_plan(&mut ctx, 0, &counting(Some(limit))).unwrap();
    let tail: Vec<Operator> = ctx.nodes[9..12].iter().map(|n| n.operator.clone()).collect();
    assert_eq!(
        tail,
        vec![
            Operator::Consolidate { input: 7 },
            Operator::WithinLimit { input: 9, level: 0, max_iters: 3 },
            Operator::Distinct { input: 8 },
        ]
    );
    assert_eq!(ctx.definitions, vec![(0, 10), (1, 11)]);
}

#[test]
fn operations_that_cannot_fail_hand_errors_on() {
    let mut ctx = context();
    let plan = Plan::Negate {
        input: Box::new(Plan::Threshold { input: Box::new(constant(vec![(1, 0, 1)])) }),
    };
    let bundle = render_plan(&mut ctx, &plan).unwrap();
    let operators: Vec<Operator> = ctx.nodes.iter().map(|n| n.operator.clone()).collect();
    assert_eq!(
        operators,
        vec![
            Operator::Constant { rows: vec![(1, 0, 1)] },
            Operator::ConstantErrors { error: None, time: 0 },
            Operator::Threshold { input: 0 },
            Operator::Negate { input: 2 },
        ]
    );
    assert_eq!(bundle, CollectionBundle { oks: 3, errs: 1 });
}

#[test]
fn operations_that_can_fail_add_their_errors() {
    let mut ctx = context();
    let plan = Plan::Join {
        inputs: vec![
            Plan::Reduce { input: Box::new(constant(vec![])) },
            Plan::Mfp {
                input: Box::new(Plan::Constant { rows: vec![(1, 0, 1)], error: Some(3) }),
                identity: true,
            },
        ],
        plan: JoinPlan::Delta,
    };
    let bundle = render_plan(&mut ctx, &plan).unwrap();
    let operators: Vec<Operator> = ctx.nodes.iter().map(|n| n.operator.clone()).collect();
    assert_eq!(
        operators,
        vec![
            Operator::Constant { rows: vec![] },
            Operator::ConstantErrors { error: None, time: 0 },
            Operator::Reduce { input: 0 },
            Operator::EvalErrors { input: 1, of: 2 },
            // A constant that is an error has no rows.
            Operator::Constant { rows: vec![] },
            Operator::ConstantErrors { error: Some(3), time: 0 },
            Operator::Join { inputs: vec![2, 4], plan: JoinPlan::Delta },
            Operator::Concat { inputs: vec![3, 5] },
            Operator::EvalErrors { input: 7, of: 6 },
        ]
    );
    assert_eq!(bundle, CollectionBundle { oks: 6, errs: 8 });
}

#[test]
fn constants_start_at_as_of_and_end_before_until() {
    let mut ctx = Context::new(Frontier::from_elem(5), Frontier::from_elem(8));
    let plan = Plan::Constant {
        rows: vec![(1, 0, 1), (2, 5, 1), (3, 7, -1), (4, 8, 1), (5, 100, 1)],
        error: None,
    };
    let bundle = render_plan(&mut ctx, &plan).unwrap();
    assert_eq!(
        ctx.nodes[bundle.oks].operator,
        Operator::Constant { rows: vec![(1, 5, 1), (2, 5, 1), (3, 7, -1)] }
    );
    assert_eq!(
        ctx.nodes[bundle.errs].operator,
        Operator::ConstantErrors { error: None, time: 5 }
    );
    assert_eq!(advance_by(3, &Frontier::from_elem(5)), 5);
    assert_eq!(advance_by(9, &Frontier::from_elem(5)), 9);
    assert_eq!(advance_by(9, &Frontier::empty()), 9);
}

#[test]
fn bindings_are_scoped() {
    let mut ctx = context();
    let plan = Plan::Let {
        id: 1,
        value: Box::new(constant(vec![])),
        body: Box::new(Plan::Union {
            inputs: vec![get(Id::Local(1)), get(Id::Local(1))],
            consolidate_output: false,
        }),
    };
    let bundle = render_plan(&mut ctx, &plan).unwrap();
    assert_eq!(ctx.nodes[bundle.oks].operator, Operator::Concat { inputs: vec![0, 0] });
    assert_eq!(ctx.nodes[bundle.errs].operator, Operator::Concat { inputs: vec![1, 1] });
    assert!(ctx.bindings.is_empty());
    // Outside the binding the name is not known.
    assert_eq!(
        render_plan(&mut ctx, &get(Id::Local(1))),
        Err(RenderError::GetNotFound(Id::Local(1)))
    );
}

#[test]
fn plans_that_cannot_be_rendered() {
    let mut ctx = context();
    assert_eq!(
        render_plan(&mut ctx, &get(Id::Global(4))),
        Err(RenderError::GetNotFound(Id::Global(4)))
    );
    let shadowing = Plan::Let {
        id: 1,
        value: Box::new(constant(vec![])),
        body: Box::new(Plan::Let {
            id: 1,
            value: Box::new(constant(vec![])),
            body: Box::new(get(Id::Local(1))),
        }),
    };
    assert_eq!(render_plan(&mut ctx, &shadowing), Err(RenderError::Shadowed(Id::Local(1))));
    assert!(ctx.bindings.is_empty());
    assert_eq!(render_plan(&mut ctx, &counting(None)), Err(RenderError::UnexpectedLetRec));
    let nested = Plan::Negate { input: Box::new(counting(None)) };
    assert_eq!(
        render_recursive_plan(&mut ctx, 0, &nested),
        Err(RenderError::UnexpectedLetRec)
    );
    let malformed = Plan::LetRec {
        ids: vec![1, 2],
        values: vec![constant(vec![])],
        limits: vec![None, None],
        body: Box::new(constant(vec![])),
    };
    assert_eq!(
        render_recursive_plan(&mut ctx, 0, &malformed),
        Err(RenderError::MalformedLetRec)
    );
    assert_eq!(
        render_recursive_plan(&mut ctx, usize::MAX, &counting(None)),
        Err(RenderError::NestedTooDeep)
    );
    let unbound = Plan::LetRec {
        ids: vec![1],
        values: vec![get(Id::Local(2))],
        limits: vec![None],
        body: Box::new(get(Id::Local(1))),
    };
    assert_eq!(
        render_recursive_plan(&mut ctx, 0, &unbound),
        Err(RenderError::GetNotFound(Id::Local(2)))
    );
    assert!(ctx.bindings.is_empty());
}

#[test]
fn a_dataflow_is_built_from_its_description() {
    let dataflow = DataflowDescription {
        source_imports: vec![10],
        index_imports: vec![(20, 21)],
        objects_to_build: vec![
            BuildDesc {
                id: 30,
                plan: Plan::Union {
                    inputs: vec![get(Id::Global(10)), get(Id::Global(21))],
                    consolidate_output: false,
                },
            },
            BuildDesc { id: 31, plan: Plan::Negate { input: Box::new(get(Id::Global(30))) } },
        ],
        index_exports: vec![(40, 31)],
        sink_exports: vec![(50, 30), (51, 10)],
        as_of: Some(Frontier::from_elem(5)),
        until: Frontier::from_elem(9),
    };
    let built = build_compute_dataflow(&dataflow).unwrap();
    assert!(!built.recursive);
    assert_eq!(built.tokens, vec![10, 20, 30, 31]);
    assert_eq!(built.context.as_of, Frontier::from_elem(5));
    assert_eq!(built.context.until, Frontier::from_elem(9));
    let nodes: Vec<(Operator, Option<u64>)> =
        built.context.nodes.iter().map(|n| (n.operator.clone(), n.owner)).collect();
    assert_eq!(
        nodes,
        vec![
            (Operator::Import { id: 10 }, Some(10)),
            (Operator::ImportErrors { id: 10 }, Some(10)),
            (
                Operator::SuppressEarlyProgress { input: 0, as_of: Frontier::from_elem(5) },
                Some(10)
            ),
            (Operator::Import { id: 20 }, Some(20)),
            (Operator::ImportErrors { id: 20 }, Some(20)),
            (Operator::Concat { inputs: vec![2, 3] }, Some(30)),
            (Operator::Concat { inputs: vec![1, 4] }, Some(30)),
            (Operator::Negate { input: 5 }, Some(31)),
        ]
    );
    assert_eq!(
        built.exports,
        vec![
            Export { id: 40, bundle: CollectionBundle { oks: 7, errs: 6 } },
            Export { id: 50, bundle: CollectionBundle { oks: 5, errs: 6 } },
            Export { id: 51, bundle: CollectionBundle { oks: 2, errs: 1 } },
        ]
    );
}

#[test]
fn a_dataflow_with_recursion_iterates() {
    let limit = LetRecLimit { max_iters: 5, return_at_limit: false };
    let dataflow = description(vec![
        BuildDesc { id: 1, plan: constant(vec![]) },
        BuildDesc { id: 2, plan: counting(Some(limit)) },
    ]);
    assert!(has_recursion(&dataflow.objects_to_build));
    let built = build_compute_dataflow(&dataflow).unwrap();
    assert!(built.recursive);
    assert_eq!(built.tokens, vec![1, 2]);
    assert_eq!(built.context.as_of, Frontier::minimum());
    assert_eq!(built.context.definitions.len(), 2);
    // Every node is held by the token of the object that it was made for.
    assert_eq!(built.context.nodes[0].owner, Some(1));
    assert_eq!(built.context.nodes[1].owner, Some(1));
    for node in &built.context.nodes[2..] {
        assert_eq!(node.owner, Some(2));
    }
}

#[test]
fn dataflows_that_cannot_be_built() {
    let mut dataflow = description(vec![BuildDesc { id: 1, plan: get(Id::Global(2)) }]);
    assert_eq!(
        build_compute_dataflow(&dataflow).err(),
        Some(RenderError::GetNotFound(Id::Global(2)))
    );
    dataflow.objects_to_build = vec![BuildDesc { id: 1, plan: constant(vec![]) }];
    dataflow.sink_exports = vec![(9, 1), (8, 3)];
    assert_eq!(build_compute_dataflow(&dataflow).err(), Some(RenderError::ExportNotFound(8)));
    dataflow.index_exports = vec![(7, 5)];
    assert_eq!(build_compute_dataflow(&dataflow).err(), Some(RenderError::ExportNotFound(7)));
    // An object is not in scope before it is built.
    let dataflow = description(vec![
        BuildDesc { id: 1, plan: get(Id::Global(2)) },
        BuildDesc { id: 2, plan: constant(vec![]) },
    ]);
    assert_eq!(
        build_compute_dataflow(&dataflow).err(),
        Some(RenderError::GetNotFound(Id::Global(2)))
    );
}

#[test]
fn early_progress_is_held_back() {
    let mut s = SuppressEarlyProgress::new(Frontier::from_elem(5));
    assert!(s.early_cap);
    // Data at or before the as-of goes out at the least time, later data at
    // its own.
    assert_eq!(s.time_for(3), Some(0));
    assert_eq!(s.time_for(5), Some(0));
    assert_eq!(s.time_for(6), Some(6));
    s.observe_frontier(Frontier::from_elem(4));
    assert!(s.early_cap);
    s.observe_frontier(Frontier::from_elem(5));
    assert!(s.early_cap);
    s.observe_frontier(Frontier::from_elem(6));
    assert!(!s.early_cap);
    assert_eq!(s.time_for(6), Some(6));
    assert_eq!(s.time_for(5), None);
    // It does not come back.
    s.observe_frontier(Frontier::from_elem(1));
    assert!(!s.early_cap);
    let mut s = SuppressEarlyProgress::new(Frontier::from_elem(5));
    s.observe_frontier(Frontier::empty());
    assert!(!s.early_cap);
}

#[test]
fn times_step_back_by_one() {
    assert_eq!(Timestamp { internal: 5 }.step_back(), Timestamp { internal: 4 });
    assert_eq!(Timestamp { internal: 0 }.step_back(), Timestamp { internal: 0 });
    assert_eq!(Timestamp { internal: 5 }.system_time(), 5);
    assert_eq!(Timestamp { internal: 5 }.event_time(), 5);
    let time = Product { outer: 7, inner: 3 };
    assert_eq!(time.step_back(), Product { outer: 6, inner: 3 });
    assert_eq!(time.system_time(), 7);
    assert_eq!(time.event_time(), 7);
    assert_eq!(Product { outer: 0, inner: 3 }.step_back(), Product { outer: 0, inner: 3 });
}

#[test]
fn contexts_bind_and_forget() {
    let mut ctx = context();
    let a = ctx.add(Operator::Import { id: 1 });
    let b = ctx.add(Operator::ImportErrors { id: 1 });
    let first = CollectionBundle { oks: a, errs: b };
    ctx.insert_id(Id::Global(1), first);
    let second = CollectionBundle { oks: b, errs: a };
    ctx.insert_id(Id::Global(1), second);
    assert_eq!(ctx.lookup_id(Id::Global(1)), Some(second));
    assert_eq!(ctx.lookup_id(Id::Local(1)), None);
    assert_eq!(ctx.remove_last(), Some((Id::Global(1), second)));
    assert_eq!(ctx.lookup_id(Id::Global(1)), Some(first));
    ctx.truncate_bindings(0);
    assert_eq!(ctx.lookup_id(Id::Global(1)), None);
    assert_eq!(ctx.remove_last(), None);
    ctx.set_shutdown_token(Some(9));
    let c = ctx.add(Operator::Negate { input: a });
    assert_eq!(ctx.nodes[c].owner, Some(9));
    assert_eq!(ctx.nodes[a].owner, None);
}

#[test]
fn the_nodes_of_a_limit_route_the_updates() {
    // The binding `X = {0} ∪ { x + 1 | x ∈ X, x < 10 }` under a limit of
    // five iterations is rendered, and the nodes that close its loop say
    // what becomes of the updates of every iteration.
    let mut ctx = context();
    let limit = LetRecLimit { max_iters: 5, return_at_limit: false };
    render_recursive_plan(&mut ctx, 0, &counting(Some(limit))).unwrap();
    let rows_at = ctx.definitions[0].1;
    let within = ctx.nodes[rows_at].operator.clone();
    assert_eq!(within, Operator::WithinLimit { input: 9, level: 0, max_iters: 5 });
    let exceeded = ctx.nodes[11].operator.clone();
    let mut variable: BTreeSet<u64> = BTreeSet::new();
    let mut oks: BTreeSet<u64> = BTreeSet::new();
    let mut errs: Vec<EvalError> = Vec::new();
    let mut iteration: u64 = 0;
    loop {
        let mut value: BTreeSet<u64> = variable.iter().filter(|x| **x < 10).map(|x| x + 1).collect();
        value.insert(0);
        let news: Vec<u64> = value.difference(&oks).cloned().collect();
        if news.is_empty() {
            break;
        }
        oks.extend(news.iter().cloned());
        if within.passes(iteration) {
            variable.extend(news);
        }
        if let Some(e) = exceeded.error_for(iteration) {
            if !errs.contains(&e) {
                errs.push(e);
            }
        }
        // No other node keeps an update back or reports a limit.
        assert!(exceeded.passes(iteration));
        assert_eq!(within.error_for(iteration), None);
        iteration += 1;
    }
    assert_eq!(oks.into_iter().collect::<Vec<_>>(), vec![0, 1, 2, 3, 4]);
    assert_eq!(errs, vec![EvalError::LetRecLimitExceeded("5".to_owned())]);
}
