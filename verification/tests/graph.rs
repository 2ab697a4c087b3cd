use recipedia::db::PackageRow;
use recipedia::graph::{
    barycenter_passes, build, longest_path_levels, xml_escape, Graph, GraphNode, RepoVersion,
};
use recipedia::model::Dep;
use recipedia::status::{Reading, State, Upstream, VersionText};
use recipedia::table::Table;

fn upstream(text: &str) -> Upstream {
    Upstream { text: text.to_string(), rank: 1 }
}

fn unread(text: &str) -> VersionText {
    VersionText { bare: upstream(text), parsed: None }
}

fn row(name: &str, deps: &[&str]) -> PackageRow {
    PackageRow {
        name: name.into(),
        slot: "0".into(),
        epoch: 0,
        arch: "amd64".into(),
        origin: String::new(),
        category: "misc".into(),
        version: upstream("1.0"),
        release: "1".into(),
        reading: Reading { plain: unread("1.0-1"), full: unread("0:1.0-1") },
        description: String::new(),
        license: String::new(),
        channel: "system".into(),
        provides: Vec::new(),
        dependencies: deps
            .iter()
            .map(|d| Dep { name: d.to_string(), req: String::new() })
            .collect(),
        build_dependencies: Vec::new(),
        check_dependencies: Vec::new(),
        conffiles: Vec::new(),
        source_url: String::new(),
        source_sha256: String::new(),
        upstream_url: String::new(),
        upstream_version_regex: String::new(),
        recipe_path: String::new(),
    }
}

#[test]
fn layers_and_cycles() {
    // a ← c ← d chain; b depends only on itself (self-edge dropped → level 0)
    let rows = vec![row("a", &[]), row("c", &["a"]), row("d", &["c"]), row("b", &["b"])];
    let g = build(&rows, &Table::new());
    let lv = |name: &str| g.nodes.iter().find(|n| n.name == name).unwrap().level;
    assert_eq!(lv("a"), 0);
    assert_eq!(lv("c"), 1);
    assert_eq!(lv("d"), 2);
    assert_eq!(lv("b"), 0);
    assert_eq!(g.edges.len(), 2);
}

#[test]
fn svg_has_links_and_classes() {
    let rows = vec![row("a", &[]), row("b", &["a"])];
    let g = build(&rows, &Table::new());
    let svg = g.render_svg();
    assert!(svg.contains("<svg"));
    assert!(svg.contains("href=\"/package/a\""));
    assert!(svg.contains("st-missing"));
    assert!(svg.contains("</svg>"));
}

#[test]
fn provides_resolve() {
    let mut r = row("consumer", &["cc"]);
    r.provides = Vec::new();
    let mut provider = row("gcc", &[]);
    provider.provides = vec!["cc".into()];
    let g = build(&vec![provider, r], &Table::new());
    assert_eq!(g.edges.len(), 1);
}

#[test]
fn nodes_are_measured_and_coloured() {
    let rows = vec![row("a", &[]), row("much-longer-name", &["a"]), row("b", &[])];
    let mut published: Table<RepoVersion> = Table::new();
    published.put("a", RepoVersion { version: upstream("1.0"), release: "1".into() });
    published.put("b", RepoVersion { version: upstream("1.0"), release: "2".into() });
    let g = build(&rows, &published);
    let node = |name: &str| g.nodes.iter().find(|n| n.name == name).unwrap();
    assert_eq!(node("a").state, State::Built);
    assert_eq!(node("b").state, State::Ahead);
    assert_eq!(node("much-longer-name").state, State::Missing);
    // The edge draws `a` past `b`, which stands alone.
    assert_eq!((node("a").x, node("a").y), (0, 29));
    assert_eq!((node("b").x, node("b").y), (0, 0));
    assert_eq!((node("much-longer-name").x, node("much-longer-name").y), (56, 0));
    assert_eq!(node("a").w, 560);
    assert_eq!(node("much-longer-name").w, 1164);
    assert_eq!(g.width, 206);
    assert_eq!(g.height, 58);
    let names: Vec<&str> = g.nodes.iter().map(|n| n.name.as_str()).collect();
    assert_eq!(names, ["b", "a", "much-longer-name"]);
    assert_eq!(g.edges, [(1, 2)]);
}

#[test]
fn edges_lead_from_dependency_to_dependent() {
    let g = build(&vec![row("b", &["a"]), row("a", &[])], &Table::new());
    assert_eq!((g.nodes[0].name.as_str(), g.nodes[1].name.as_str()), ("a", "b"));
    assert_eq!(g.edges, [(0, 1)]);
}

#[test]
fn a_name_comes_before_what_provides_it() {
    let mut other = row("x", &[]);
    other.provides = vec!["y".into()];
    let rows = vec![row("y", &[]), other, row("user", &["y", "nowhere"])];
    let g = build(&rows, &Table::new());
    assert_eq!(g.nodes[1].name, "y");
    assert_eq!(g.edges, [(1, 2)]);
}

#[test]
fn an_empty_graph_is_drawn() {
    let g = build(&Vec::new(), &Table::new());
    assert_eq!(
        g.render_svg(),
        "<svg xmlns=\"http://www.w3.org/2000/svg\" viewBox=\"0 0 150 0\" \
         font-family=\"ui-monospace,Menlo,Consolas,monospace\" font-size=\"11\"></svg>"
    );
}

#[test]
fn the_drawing_is_exact() {
    let g = Graph {
        nodes: vec![
            GraphNode { name: "a&b".into(), level: 0, state: State::Built, x: 0, y: 0, w: 560 },
            GraphNode { name: "c".into(), level: 1, state: State::Missing, x: 56, y: 29, w: 1164 },
        ],
        edges: vec![(0, 1)],
        width: 206,
        height: 58,
    };
    let expected = "<svg xmlns=\"http://www.w3.org/2000/svg\" viewBox=\"0 0 206 58\" \
         font-family=\"ui-monospace,Menlo,Consolas,monospace\" font-size=\"11\">\
         <path d=\"M56,11 C56,11 56,40 56,40\" fill=\"none\" stroke=\"#c9c5bc\" stroke-width=\"1\"/>\
         <a href=\"/package/a&b\" target=\"_top\"><title>a&b · built</title>\
         <rect class=\"st-built\" x=\"0\" y=\"0\" width=\"56\" height=\"22\" rx=\"4\"/></a>\
         <text x=\"28\" y=\"14\" fill=\"#ffffff\" style=\"pointer-events:none\">a&amp;b</text>\
         <a href=\"/package/c\" target=\"_top\"><title>c · missing</title>\
         <rect class=\"st-missing\" x=\"56\" y=\"29\" width=\"116\" height=\"22\" rx=\"4\"/></a>\
         <text x=\"114\" y=\"44\" fill=\"#ffffff\" style=\"pointer-events:none\">c</text></svg>";
    assert_eq!(g.render_svg(), expected);
}

#[test]
fn xml_is_escaped() {
    assert_eq!(xml_escape("a<b>&c"), "a&lt;b&gt;&amp;c");
    assert_eq!(xml_escape("&lt;"), "&amp;lt;");
    assert_eq!(xml_escape(""), "");
}

#[test]
fn levels_are_the_longest_chains() {
    // 3 → 2 → 1 → 0 and 3 → 0
    let resolved = vec![vec![], vec![0], vec![1], vec![0, 2]];
    assert_eq!(longest_path_levels(&resolved), [0, 1, 2, 3]);
    assert_eq!(longest_path_levels(&vec![vec![1], vec![2], vec![]]), [2, 1, 0]);
    assert_eq!(longest_path_levels(&Vec::new()), Vec::<usize>::new());
}

#[test]
fn what_closes_a_cycle_lifts_nothing() {
    assert_eq!(longest_path_levels(&vec![vec![1], vec![0]]), [1, 0]);
    assert_eq!(longest_path_levels(&vec![vec![0]]), [0]);
    assert_eq!(longest_path_levels(&vec![vec![1], vec![2], vec![0]]), [2, 1, 0]);
    let g = build(&vec![row("a", &["b"]), row("b", &["a"])], &Table::new());
    let level = |name: &str| g.nodes.iter().find(|n| n.name == name).unwrap().level;
    assert_eq!((g.nodes.len(), g.edges.len()), (2, 2));
    assert_eq!((level("a"), level("b")), (1, 0));
    assert_eq!(g.width, 206);
}

#[test]
fn neighbours_attract_within_a_level() {
    // Nodes 0 and 1 at level 0, 2 and 3 at level 1, with crossing edges.
    let levels = vec![0, 0, 1, 1];
    let edges = vec![(0, 3), (1, 2)];
    let mut order = vec![0, 1, 2, 3];
    barycenter_passes(&mut order, &levels, &edges, 4, 4);
    let mut sorted = order.clone();
    sorted.sort();
    assert_eq!(sorted, [0, 1, 2, 3]);
    assert_eq!(order.iter().map(|&i| levels[i]).collect::<Vec<_>>(), [0, 0, 1, 1]);

    let mut alone = vec![0, 1, 2, 3];
    barycenter_passes(&mut alone, &levels, &Vec::new(), 4, 4);
    assert_eq!(alone, [0, 1, 2, 3]);

    // One pass forth: 0 stands before the average place 2 of its neighbour
    // 2, passes 1, and the other two stay.
    let mut once = vec![0, 1, 2];
    barycenter_passes(&mut once, &vec![0, 0, 1], &vec![(0, 2)], 3, 1);
    assert_eq!(once, [1, 0, 2]);
}
