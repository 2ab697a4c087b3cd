//! The dependency graph as SVG.

use vstd::prelude::*;
use vstd::string::*;

use crate::digits::{decimal, decimal_text};
use crate::graph::{drawable, measured, Graph, GraphModel, GraphNode, GraphNodeModel};
use crate::text::{chars_of, concat, occurs, occurs_at, text_from};

verus! {

/// A length in tenths of a pixel, in whole pixels: the nearest, and of two the
/// even one.
pub open spec fn pixels(tenths: int) -> int {
    let whole = tenths / 10;
    let part = tenths % 10;
    if part < 5 || (part == 5 && whole % 2 == 0) {
        whole
    } else {
        whole + 1
    }
}

/// A length in tenths of a pixel, written in whole pixels.
fn pixel_text(tenths: u128) -> (r: String)
    ensures
        r@ == decimal(pixels(tenths as int) as nat),
{
    let whole: u128 = tenths / 10;
    let part: u128 = tenths % 10;
    if part < 5 || (part == 5 && whole % 2 == 0) {
        decimal_text(whole)
    } else {
        decimal_text(whole + 1)
    }
}

/// A character as XML text.
pub open spec fn escape_char(c: char) -> Seq<char> {
    if c == '&' {
        "&amp;"@
    } else if c == '<' {
        "&lt;"@
    } else if c == '>' {
        "&gt;"@
    } else {
        seq![c]
    }
}

/// A text as XML text.
pub open spec fn escaped(s: Seq<char>) -> Seq<char> {
    concat(s.map_values(|c: char| escape_char(c)))
}

/// A text as XML text.
pub fn xml_escape(s: &str) -> (r: String)
    ensures
        r@ == escaped(s@),
{
    let chars = chars_of(s);
    let ghost parts = s@.map_values(|c: char| escape_char(c));
    let mut out = String::new();
    let mut i: usize = 0;
    assert(parts.take(0) =~= Seq::<Seq<char>>::empty());
    assert(out@ =~= concat(parts.take(0)));
    while i < chars.len()
        invariant
            chars@ == s@,
            parts == s@.map_values(|c: char| escape_char(c)),
            i <= chars.len(),
            out@ == concat(parts.take(i as int)),
        decreases chars.len() - i,
    {
        assert(parts.take(i + 1).drop_last() =~= parts.take(i as int));
        let c = chars[i];
        if c == '&' {
            out.append("&amp;");
        } else if c == '<' {
            out.append("&lt;");
        } else if c == '>' {
            out.append("&gt;");
        } else {
            let ghost before = out@;
            out.push(c);
            assert(out@ =~= before + seq![c]);
        }
        i += 1;
    }
    assert(parts.take(i as int) =~= parts);
    out
}

/// The curve of an edge from `a` to `b`.
pub open spec fn edge_text(a: GraphNodeModel, b: GraphNodeModel) -> Seq<char> {
    let x1 = decimal(pixels(10 * a.x + a.w) as nat);
    let y1 = decimal((a.y + 11) as nat);
    let x2 = decimal(b.x as nat);
    let y2 = decimal((b.y + 11) as nat);
    let mid = decimal(pixels((10 * a.x + a.w + 10 * b.x) / 2) as nat);
    concat(
        seq![
            "<path d=\"M"@, x1, ","@, y1, " C"@, mid, ","@, y1, " "@, mid, ","@, y2, " "@, x2,
            ","@, y2, "\" fill=\"none\" stroke=\"#c9c5bc\" stroke-width=\"1\"/>"@,
        ],
    )
}

/// The link, box and name of a node.
pub open spec fn node_text(n: GraphNodeModel) -> Seq<char> {
    concat(
        seq![
            "<a href=\"/package/"@, n.name, "\" target=\"_top\"><title>"@, n.name, " · "@,
            n.state.label_spec(), "</title><rect class=\"st-"@, n.state.label_spec(), "\" x=\""@,
            decimal(n.x as nat), "\" y=\""@, decimal(n.y as nat), "\" width=\""@,
            decimal(pixels(n.w) as nat), "\" height=\"22\" rx=\"4\"/></a><text x=\""@,
            decimal(pixels(10 * n.x + n.w / 2) as nat), "\" y=\""@,
            decimal(pixels(10 * n.y + 145) as nat),
            "\" fill=\"#ffffff\" style=\"pointer-events:none\">"@, escaped(n.name), "</text>"@,
        ],
    )
}

pub open spec fn head_text(g: GraphModel) -> Seq<char> {
    concat(
        seq![
            "<svg xmlns=\"http://www.w3.org/2000/svg\" viewBox=\"0 0 "@,
            decimal(g.width as nat), " "@, decimal(g.height as nat),
            "\" font-family=\"ui-monospace,Menlo,Consolas,monospace\" font-size=\"11\">"@,
        ],
    )
}

pub open spec fn edge_texts(g: GraphModel) -> Seq<Seq<char>> {
    g.edges.map_values(
        |e: (usize, usize)| edge_text(g.nodes[e.0 as int], g.nodes[e.1 as int]),
    )
}

pub open spec fn node_texts(g: GraphModel) -> Seq<Seq<char>> {
    g.nodes.map_values(|n: GraphNodeModel| node_text(n))
}

/// The drawing of a graph: the edges, then the nodes over them.
pub open spec fn svg_of(g: GraphModel) -> Seq<char> {
    concat(seq![head_text(g), concat(edge_texts(g)), concat(node_texts(g)), "</svg>"@])
}

fn draw_edge(a: &GraphNode, b: &GraphNode) -> (r: String)
    requires
        measured(a.deep_view()),
        measured(b.deep_view()),
    ensures
        r@ == edge_text(a.deep_view(), b.deep_view()),
{
    let x1 = pixel_text(10 * a.x + a.w);
    let y1 = decimal_text(a.y + 11);
    let x2 = decimal_text(b.x);
    let y2 = decimal_text(b.y + 11);
    let mid = pixel_text((10 * a.x + a.w + 10 * b.x) / 2);
    let parts: Vec<&str> = vec![
        "<path d=\"M", x1.as_str(), ",", y1.as_str(), " C", mid.as_str(), ",", y1.as_str(), " ",
        mid.as_str(), ",", y2.as_str(), " ", x2.as_str(), ",", y2.as_str(),
        "\" fill=\"none\" stroke=\"#c9c5bc\" stroke-width=\"1\"/>",
    ];
    let ghost n = a.deep_view();
    let ghost m = b.deep_view();
    assert(parts.deep_view() =~= seq![
        "<path d=\"M"@, x1@, ","@, y1@, " C"@, mid@, ","@, y1@, " "@, mid@, ","@, y2@, " "@, x2@,
        ","@, y2@, "\" fill=\"none\" stroke=\"#c9c5bc\" stroke-width=\"1\"/>"@,
    ]);
    text_from(&parts)
}

fn draw_node(n: &GraphNode) -> (r: String)
    requires
        measured(n.deep_view()),
    ensures
        r@ == node_text(n.deep_view()),
{
    let x = decimal_text(n.x);
    let y = decimal_text(n.y);
    let w = pixel_text(n.w);
    let text_x = pixel_text(10 * n.x + n.w / 2);
    let text_y = pixel_text(10 * n.y + 145);
    let name = xml_escape(&n.name);
    let label = n.state.label();
    let parts: Vec<&str> = vec![
        "<a href=\"/package/", n.name.as_str(), "\" target=\"_top\"><title>", n.name.as_str(),
        " · ", label, "</title><rect class=\"st-", label, "\" x=\"", x.as_str(), "\" y=\"",
        y.as_str(), "\" width=\"", w.as_str(), "\" height=\"22\" rx=\"4\"/></a><text x=\"",
        text_x.as_str(), "\" y=\"", text_y.as_str(),
        "\" fill=\"#ffffff\" style=\"pointer-events:none\">", name.as_str(), "</text>",
    ];
    assert(parts.deep_view() =~= seq![
        "<a href=\"/package/"@, n.name@, "\" target=\"_top\"><title>"@, n.name@, " · "@,
        n.state.label_spec(), "</title><rect class=\"st-"@, n.state.label_spec(), "\" x=\""@, x@,
        "\" y=\""@, y@, "\" width=\""@, w@, "\" height=\"22\" rx=\"4\"/></a><text x=\""@,
        text_x@, "\" y=\""@, text_y@,
        "\" fill=\"#ffffff\" style=\"pointer-events:none\">"@, name@, "</text>"@,
    ]);
    text_from(&parts)
}

impl Graph {
    /// The drawing of the graph as SVG, to be embedded in a page. Every node
    /// links to the page of its package.
    pub fn render_svg(&self) -> (r: String)
        requires
            drawable(self.deep_view()),
        ensures
            r@ == svg_of(self.deep_view()),
    {
        let ghost g = self.deep_view();
        let width = decimal_text(self.width);
        let height = decimal_text(self.height);
        let opening: Vec<&str> = vec![
            "<svg xmlns=\"http://www.w3.org/2000/svg\" viewBox=\"0 0 ", width.as_str(), " ",
            height.as_str(),
            "\" font-family=\"ui-monospace,Menlo,Consolas,monospace\" font-size=\"11\">",
        ];
        assert(opening.deep_view() =~= seq![
            "<svg xmlns=\"http://www.w3.org/2000/svg\" viewBox=\"0 0 "@, width@, " "@, height@,
            "\" font-family=\"ui-monospace,Menlo,Consolas,monospace\" font-size=\"11\">"@,
        ]);
        let head = text_from(&opening);
        let ghost edges = edge_texts(g);
        let mut curves = String::new();
        let mut e: usize = 0;
        assert(edges.take(0) =~= Seq::<Seq<char>>::empty());
        assert(curves@ =~= concat(edges.take(0)));
        while e < self.edges.len()
            invariant
                g == self.deep_view(),
                drawable(g),
                edges == edge_texts(g),
                e <= self.edges.len(),
                curves@ == concat(edges.take(e as int)),
            decreases self.edges.len() - e,
        {
            assert(edges.take(e + 1).drop_last() =~= edges.take(e as int));
            let (dep, me) = self.edges[e];
            assert(g.edges[e as int] == (dep, me));
            assert(g.nodes[dep as int] == self.nodes@[dep as int].deep_view());
            assert(g.nodes[me as int] == self.nodes@[me as int].deep_view());
            curves.append(&draw_edge(&self.nodes[dep], &self.nodes[me]));
            e += 1;
        }
        assert(edges.take(e as int) =~= edges);
        let ghost boxes = node_texts(g);
        let mut drawn = String::new();
        let mut k: usize = 0;
        assert(boxes.take(0) =~= Seq::<Seq<char>>::empty());
        assert(drawn@ =~= concat(boxes.take(0)));
        while k < self.nodes.len()
            invariant
                g == self.deep_view(),
                drawable(g),
                boxes == node_texts(g),
                k <= self.nodes.len(),
                drawn@ == concat(boxes.take(k as int)),
            decreases self.nodes.len() - k,
        {
            assert(boxes.take(k + 1).drop_last() =~= boxes.take(k as int));
            assert(g.nodes[k as int] == self.nodes@[k as int].deep_view());
            drawn.append(&draw_node(&self.nodes[k]));
            k += 1;
        }
        assert(boxes.take(k as int) =~= boxes);
        let whole: Vec<&str> = vec![head.as_str(), curves.as_str(), drawn.as_str(), "</svg>"];
        assert(whole.deep_view() =~= seq![
            head_text(g), concat(edge_texts(g)), concat(node_texts(g)), "</svg>"@,
        ]);
        text_from(&whole)
    }
}

// ---------------------------------------------------------------------------
// Laws
// ---------------------------------------------------------------------------

/// The drawing of a graph has for each node a link to the page of its
/// package.
pub proof fn lemma_svg_links(g: GraphModel, k: int)
    requires
        0 <= k < g.nodes.len(),
    ensures
        occurs(svg_of(g), "<a href=\"/package/"@ + g.nodes[k].name + "\" target=\"_top\"><title>"@),
{
    let n = g.nodes[k];
    let parts = seq![
        "<a href=\"/package/"@, n.name, "\" target=\"_top\"><title>"@, n.name, " · "@,
        n.state.label_spec(), "</title><rect class=\"st-"@, n.state.label_spec(), "\" x=\""@,
        decimal(n.x as nat), "\" y=\""@, decimal(n.y as nat), "\" width=\""@,
        decimal(pixels(n.w) as nat), "\" height=\"22\" rx=\"4\"/></a><text x=\""@,
        decimal(pixels(10 * n.x + n.w / 2) as nat), "\" y=\""@,
        decimal(pixels(10 * n.y + 145) as nat),
        "\" fill=\"#ffffff\" style=\"pointer-events:none\">"@, escaped(n.name), "</text>"@,
    ];
    let link = "<a href=\"/package/"@ + n.name + "\" target=\"_top\"><title>"@;
    lemma_concat_take(parts, 3);
    let first = parts.take(3);
    assert(first.drop_last() =~= parts.take(2));
    assert(first.drop_last().drop_last() =~= parts.take(1));
    assert(first.drop_last().drop_last().drop_last() =~= Seq::<Seq<char>>::empty());
    reveal_with_fuel(concat, 4);
    assert(concat(first) =~= link);
    assert(node_text(n) == concat(parts));
    lemma_occurs_prefix(concat(parts), link);
    lemma_occurs_part(node_texts(g), k, link);
    let whole = seq![head_text(g), concat(edge_texts(g)), concat(node_texts(g)), "</svg>"@];
    lemma_occurs_part(whole, 2, link);
}

/// The first parts of a text stand at its beginning.
proof fn lemma_concat_take(parts: Seq<Seq<char>>, i: int)
    requires
        0 <= i <= parts.len(),
    ensures
        concat(parts.take(i)).is_prefix_of(concat(parts)),
    decreases parts.len() - i,
{
    if i < parts.len() {
        lemma_concat_take(parts, i + 1);
        assert(parts.take(i + 1).drop_last() =~= parts.take(i));
        assert(concat(parts.take(i + 1)) == concat(parts.take(i)) + parts[i]);
        assert(concat(parts.take(i)).is_prefix_of(concat(parts.take(i + 1))));
    } else {
        assert(parts.take(i) =~= parts);
    }
}

proof fn lemma_occurs_prefix(s: Seq<char>, prefix: Seq<char>)
    requires
        prefix.is_prefix_of(s),
    ensures
        occurs(s, prefix),
{
    assert(s.subrange(0, 0int + prefix.len()) =~= prefix);
    assert(occurs_at(s, prefix, 0));
}

/// What occurs in a part occurs in the whole.
proof fn lemma_occurs_part(parts: Seq<Seq<char>>, i: int, needle: Seq<char>)
    requires
        0 <= i < parts.len(),
        occurs(parts[i], needle),
    ensures
        occurs(concat(parts), needle),
{
    let at = choose|at: int| occurs_at(parts[i], needle, at);
    let before = concat(parts.take(i));
    assert(parts.take(i + 1).drop_last() =~= parts.take(i));
    lemma_concat_take(parts, i + 1);
    let s = concat(parts);
    let from = before.len() + at;
    assert(s.subrange(from, from + needle.len()) =~= needle) by {
        assert forall|k: int| 0 <= k < needle.len() implies s[from + k] == needle[k] by {
            assert(concat(parts.take(i + 1))[from + k] == parts[i][at + k]);
            assert(parts[i].subrange(at, at + needle.len())[k] == needle[k]);
        }
    }
    assert(occurs_at(s, needle, from));
}

} // verus!
