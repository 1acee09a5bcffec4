//! The two text formats draw the clusters in their order.

use crate::binary32::Binary32;
use crate::cluster::Cluster;
use crate::style::{
    css_head, css_layer, css_layers, css_lines, css_text, css_visible, svg_circle, svg_circles,
    svg_text, svg_visible, StyleOptions,
};
use crate::style_laws::{lemma_circle_among, lemma_line_among};
use vstd::prelude::*;
use vstd::string::*;

verus! {

/// More circles follow behind the first ones.
proof fn lemma_circles_follow(clusters: Seq<Cluster>, opts: StyleOptions, m: nat, n: nat) -> (rest: Seq<
    char,
>)
    requires
        m <= n <= clusters.len(),
    ensures
        svg_circles(clusters, opts, n) == svg_circles(clusters, opts, m) + rest,
    decreases n,
{
    let first = svg_circles(clusters, opts, m);
    if m == n {
        assert(first =~= first + Seq::empty());
        Seq::empty()
    } else {
        let rest = lemma_circles_follow(clusters, opts, m, (n - 1) as nat);
        let c = clusters[n - 1];
        if svg_visible(c, opts) {
            let circle = svg_circle((n - 1) as nat, c, opts);
            lemma_joined(first, rest, circle);
            rest + circle
        } else {
            rest
        }
    }
}

proof fn lemma_joined(a: Seq<char>, b: Seq<char>, c: Seq<char>)
    ensures
        (a + b) + c == a + (b + c),
{
    assert((a + b) + c =~= a + (b + c));
}

proof fn lemma_five(
    head: Seq<char>,
    a: Seq<char>,
    x: Seq<char>,
    b: Seq<char>,
    y: Seq<char>,
    c: Seq<char>,
    tail: Seq<char>,
)
    ensures
        head + (((a + x + b) + y) + c) + tail == (head + a) + x + b + y + (c + tail),
{
    assert(head + (((a + x + b) + y) + c) + tail =~= (head + a) + x + b + y + (c + tail));
}

/// An SVG picture draws its circles in the order of the clusters, so that a later one covers
/// an earlier one.
#[verifier::rlimit(40)]
pub proof fn lemma_svg_circles_follow_the_clusters(
    clusters: Seq<Cluster>,
    opts: StyleOptions,
    i: int,
    j: int,
) -> (parts: (Seq<char>, Seq<char>, Seq<char>))
    requires
        0 <= i < j < clusters.len(),
        svg_visible(clusters[i], opts),
        svg_visible(clusters[j], opts),
    ensures
        svg_text(clusters, opts) == parts.0 + svg_circle(i as nat, clusters[i], opts) + parts.1
            + svg_circle(j as nat, clusters[j], opts) + parts.2,
{
    let (x, y) = (
        svg_circle(i as nat, clusters[i], opts),
        svg_circle(j as nat, clusters[j], opts),
    );
    let (a, b) = lemma_circle_among(clusters, opts, i, j as nat);
    let rest = lemma_circles_follow(clusters, opts, (j + 1) as nat, clusters.len());
    assert(svg_circles(clusters, opts, (j + 1) as nat) == (a + x + b) + y);
    let circles = svg_circles(clusters, opts, clusters.len());
    let text = svg_text(clusters, opts);
    let tail = "</svg>\n"@;
    let head = text.take(text.len() - tail.len() - circles.len());
    assert(text =~= head + circles + tail);
    lemma_five(head, a, x, b, y, rest, tail);
    (head + a, b, rest + tail)
}

/// The first layers stay the first.
proof fn lemma_layers_follow(clusters: Seq<Cluster>, opts: StyleOptions, m: nat, n: nat)
    requires
        m <= n <= clusters.len(),
    ensures
        css_layers(clusters, opts, m).len() <= css_layers(clusters, opts, n).len(),
        forall|p: int|
            0 <= p < css_layers(clusters, opts, m).len() ==> #[trigger] css_layers(
                clusters,
                opts,
                n,
            )[p] == css_layers(clusters, opts, m)[p],
    decreases n,
{
    if m < n {
        lemma_layers_follow(clusters, opts, m, (n - 1) as nat);
    }
}

/// The place of a layer.
proof fn lemma_layer_place(clusters: Seq<Cluster>, opts: StyleOptions, i: int, n: nat)
    requires
        0 <= i < n <= clusters.len(),
        css_visible(clusters[i]),
    ensures
        css_layers(clusters, opts, i as nat).len() < css_layers(clusters, opts, n).len(),
        css_layers(clusters, opts, n)[css_layers(clusters, opts, i as nat).len() as int]
            == css_layer(clusters[i], opts),
{
    lemma_layers_follow(clusters, opts, (i + 1) as nat, n);
    let p = css_layers(clusters, opts, i as nat).len() as int;
    assert(css_layers(clusters, opts, (i + 1) as nat)[p] == css_layer(clusters[i], opts));
}

/// More lines follow behind the first ones.
proof fn lemma_lines_follow(layers: Seq<Seq<char>>, m: nat, n: nat) -> (rest: Seq<char>)
    requires
        m <= n <= layers.len(),
    ensures
        css_lines(layers, n) == css_lines(layers, m) + rest,
    decreases n,
{
    let first = css_lines(layers, m);
    if m == n {
        assert(first =~= first + Seq::empty());
        Seq::empty()
    } else {
        let rest = lemma_lines_follow(layers, m, (n - 1) as nat);
        let end = if n < layers.len() {
            ",\n"@
        } else {
            ";\n"@
        };
        let line = "        "@ + layers[n - 1] + end;
        assert(css_lines(layers, n) =~= css_lines(layers, (n - 1) as nat) + line);
        lemma_joined(first, rest, line);
        rest + line
    }
}

/// Two layers stand among the lines in their order.
proof fn lemma_two_lines(layers: Seq<Seq<char>>, p: int, q: int) -> (parts: (
    Seq<char>,
    Seq<char>,
    Seq<char>,
))
    requires
        0 <= p < q < layers.len(),
    ensures
        css_lines(layers, layers.len()) == ((parts.0 + layers[p] + parts.1) + layers[q]) + parts.2,
{
    let (a, b) = lemma_line_among(layers, p, q as nat);
    let rest = lemma_lines_follow(layers, (q + 1) as nat, layers.len());
    let end = if q + 1 < layers.len() {
        ",\n"@
    } else {
        ";\n"@
    };
    let gap = "        "@;
    let (x, y) = (layers[p], layers[q]);
    assert(css_lines(layers, (q + 1) as nat) == (a + x + b) + gap + y + end);
    lemma_regroup(a, x, b, gap, y, end, rest);
    (a, b + gap, end + rest)
}

proof fn lemma_regroup(
    a: Seq<char>,
    x: Seq<char>,
    b: Seq<char>,
    gap: Seq<char>,
    y: Seq<char>,
    end: Seq<char>,
    rest: Seq<char>,
)
    ensures
        ((a + x + b) + gap + y + end) + rest == ((a + x + (b + gap)) + y) + (end + rest),
{
    assert(((a + x + b) + gap + y + end) + rest =~= ((a + x + (b + gap)) + y) + (end + rest));
}

/// A style sheet lists its layers in the order of the clusters, so that an earlier one covers
/// a later one.
#[verifier::rlimit(40)]
pub proof fn lemma_css_layers_follow_the_clusters(
    clusters: Seq<Cluster>,
    opts: StyleOptions,
    i: int,
    j: int,
) -> (parts: (Seq<char>, Seq<char>, Seq<char>))
    requires
        0 <= i < j < clusters.len(),
        (Binary32 { bits: 0 }).less(clusters[i].weight),
        (Binary32 { bits: 0 }).less(clusters[j].weight),
    ensures
        css_text(clusters, opts) == parts.0 + css_layer(clusters[i], opts) + parts.1 + css_layer(
            clusters[j],
            opts,
        ) + parts.2,
{
    let layers = css_layers(clusters, opts, clusters.len());
    let p = css_layers(clusters, opts, i as nat).len() as int;
    let q = css_layers(clusters, opts, j as nat).len() as int;
    lemma_layer_place(clusters, opts, i, clusters.len());
    lemma_layer_place(clusters, opts, j, clusters.len());
    lemma_layer_place(clusters, opts, i, j as nat);
    let (a, b, c) = lemma_two_lines(layers, p, q);
    let (head, open, tail) = (css_head(opts.background@), "    --orber-bg:\n"@, "}\n"@);
    lemma_joined(head, open, css_lines(layers, layers.len()));
    lemma_five(head + open, a, layers[p], b, layers[q], c, tail);
    (head + open + a, b, c + tail)
}

} // verus!
