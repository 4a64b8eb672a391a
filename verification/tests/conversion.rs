use concurrent::{fk, par, Format, ForkJoin, Graph, Ir, IrNode, Par};

fn ir_graph(input: &str) -> Graph<IrNode, Ir> {
    Graph::<IrNode, Ir>::parse(input).unwrap()
}

#[test]
fn ir_parse_and_serialize_round_trip() {
    for text in ["$a$", "$a,b$", "$a,{b,c},d$", "$[a,b],{c,[d,e]}$", "$a#{b,c}!,b,c$"] {
        let g = ir_graph(text);
        assert_eq!(g.to_text(), text);
    }
}

#[test]
fn ir_parse_rejects_malformed_text() {
    for text in ["", "$", "$a", "a$", "$a,{b$", "$a}$", "$a$x", "${,}$"] {
        assert!(Graph::<IrNode, Ir>::parse(text).is_err());
    }
}

#[test]
fn par_round_trip_is_lossless() {
    // P -> IR -> P' leaves every Par graph unchanged.
    let text = "begin\n  a\n  parbegin\n    b\n    begin\n      c\n      d\n    end\n  parend\nend";
    let p = Graph::<par::Node, Par>::parse(text).unwrap();
    let original = p.to_text();
    let round = p.to_ir().to_par().unwrap();
    assert_eq!(round.to_text(), original);
}

#[test]
fn plain_ir_survives_par_round_trip() {
    // An IR graph with no deps and no terminal marker comes back unchanged.
    let g = ir_graph("$a,{b,[c,d]}$");
    let round = g.to_par().unwrap().to_ir();
    assert_eq!(round.to_text(), "$a,{b,[c,d]}$");
}

#[test]
fn par_cannot_represent_deps_or_terminal() {
    let with_dep = ir_graph("$a#{b},b$");
    match with_dep.to_par() {
        Err(concurrent::Error::ConversionError(_)) => {}
        _ => panic!("a dependency annotation must be rejected"),
    }
    let with_terminal = ir_graph("$a!$");
    match with_terminal.to_par() {
        Err(concurrent::Error::ConversionError(_)) => {}
        _ => panic!("a terminal marker must be rejected"),
    }
}

#[test]
fn lowering_emits_fork_join_code() {
    let g = ir_graph("$a,{c,b},d$");
    let fk_graph = g.to_fk();
    let text = fk_graph.to_text();
    assert_eq!(
        text,
        "begin\n    a\n    fork Lb\n    c\n    L0: join c1\n    d\n    Lb: b\n        goto L0\nend"
    );
}

#[test]
fn structuring_recovers_fork_join_nesting() {
    let input = "begin\n    a\n    fork LB\n    c\n    LD: join\n    d\n    LB: b\n    goto LD\nend";
    let g = Graph::<fk::Stmt, ForkJoin>::parse(input).unwrap();
    let ir = g.to_ir();
    assert_eq!(ir.to_text(), "$a,{c,b},d$");
}

#[test]
fn structuring_handles_terminal_branches() {
    let input = "begin\n    s0\n    fork L2\n    s3\n    goto end\n    L2: s2\n    goto end\nend";
    let g = Graph::<fk::Stmt, ForkJoin>::parse(input).unwrap();
    let ir = g.to_ir();
    assert_eq!(ir.to_text(), "$s0,{s3,s2}$");
}

#[test]
fn fork_join_round_trip_preserves_atoms_and_branches() {
    // G -> Fork-Join -> G' keeps the atomic names per branch and the
    // branch count, for a structured graph of plain nodes.
    let g = ir_graph("$a,{b,c},d$");
    let round = g.to_fk().to_ir();
    assert_eq!(round.to_text(), "$a,{b,c},d$");
}

#[test]
fn fork_join_parse_handles_every_statement_kind() {
    let input = "begin\n    a\n    fork L1\n    goto end\n    L1: join c0\n    join\nend";
    let g = Graph::<fk::Stmt, ForkJoin>::parse(input).unwrap();
    assert_eq!(g.to_text(), input);
}

#[test]
fn fork_join_parse_rejects_malformed_text() {
    for text in ["", "begin", "begin\nfork\nend", "begin\na b c\nend", "a\nend"] {
        assert!(Graph::<fk::Stmt, ForkJoin>::parse(text).is_err());
    }
}

#[test]
fn par_parse_rejects_malformed_text() {
    for text in ["", "begin", "begin\nparbegin\nend", "begin\na\nend\nx", "end"] {
        assert!(Graph::<par::Node, Par>::parse(text).is_err());
    }
}

#[test]
fn format_from_extension() {
    assert_eq!(concurrent::format_from_ext("graph").unwrap(), Format::Ir);
    assert_eq!(concurrent::format_from_ext("par").unwrap(), Format::Par);
    assert_eq!(concurrent::format_from_ext("fk").unwrap(), Format::ForkJoin);
    match concurrent::format_from_ext("pdf") {
        Err(concurrent::Error::InvalidType(t)) => assert_eq!(t, "pdf"),
        _ => panic!("an unknown extension must be rejected"),
    }
}

#[test]
fn parse_selects_the_notation() {
    let g = concurrent::parse("$a,b$", Format::Ir).unwrap();
    assert_eq!(g.to_text(), "$a,b$");
    let g = concurrent::parse("begin\n  a\n  b\nend", Format::Par).unwrap();
    assert_eq!(g.to_text(), "$a,b$");
    let g = concurrent::parse("begin\n    a\n    b\nend", Format::ForkJoin).unwrap();
    assert_eq!(g.to_text(), "$a,b$");
}

#[test]
fn empty_graph_round_trips() {
    let g = ir_graph("$$");
    assert_eq!(g.to_text(), "$$");
    let p = g.to_par().unwrap();
    assert_eq!(p.to_text(), "begin\nend");
    let back = p.to_ir();
    assert_eq!(back.to_text(), "$$");
}

#[test]
fn nested_parallel_defers_branches_depth_first() {
    let g = ir_graph("${a,{b,c}}$");
    let lowered = g.to_fk();
    let round = lowered.to_ir();
    let mut names: Vec<String> = Vec::new();
    collect_names(round.nodes(), &mut names);
    names.sort();
    assert_eq!(names, vec!["a", "b", "c"]);
}

fn collect_names(nodes: &Vec<IrNode>, out: &mut Vec<String>) {
    for n in nodes {
        match n {
            IrNode::Atomic(name, _, _) => out.push(name.clone()),
            IrNode::Sequence(children) => collect_names(children, out),
            IrNode::Par(children) => collect_names(children, out),
            IrNode::Dep(_) => {}
        }
    }
}

#[test]
fn terminal_atomic_lowers_to_goto_end() {
    let g = ir_graph("$x!,y$");
    let text = g.to_fk().to_text();
    assert_eq!(text, "begin\n    x\n    goto end\n    y\nend");
}
