//! Styled text as HTML.

use crate::attrs::AttrSet;
use crate::fmt::lossy_text;
use crate::info::FontStyle;
use crate::node::Node;
use crate::tree::Tree;
use vstd::prelude::*;

verus! {

/// The name of the HTML element that renders a style.
pub open spec fn tag_of(style: FontStyle) -> Seq<char> {
    match style {
        FontStyle::Bold => "strong"@,
        FontStyle::Italic => "em"@,
        FontStyle::Underline => "u"@,
    }
}

/// The opening tags for the first `n` styles, in their order.
pub open spec fn opening(styles: Seq<FontStyle>, n: nat) -> Seq<char>
    decreases n,
{
    if n == 0 || n > styles.len() {
        Seq::empty()
    } else {
        opening(styles, (n - 1) as nat) + "<"@ + tag_of(styles[n - 1]) + ">"@
    }
}

/// The closing tags for the first `n` styles, in their order.
pub open spec fn closing(styles: Seq<FontStyle>, n: nat) -> Seq<char>
    decreases n,
{
    if n == 0 || n > styles.len() {
        Seq::empty()
    } else {
        closing(styles, (n - 1) as nat) + "</"@ + tag_of(styles[n - 1]) + ">"@
    }
}

/// The HTML for the subtree of `node`: the tags of the node's own styles
/// around its text, or around the HTML for its children.
pub open spec fn html_of(node: Node<FontStyle>) -> Seq<char>
    decreases node, node.kids().len() + 1,
{
    opening(node.own_order(), node.own_order().len()) + (if node.leaf() {
        lossy_text(node.content())
    } else {
        html_upto(node, node.kids().len())
    }) + closing(node.own_order(), node.own_order().len())
}

/// The HTML for the first `n` children of `node`.
pub open spec fn html_upto(node: Node<FontStyle>, n: nat) -> Seq<char>
    decreases node, n,
{
    if n == 0 || n > node.kids().len() {
        Seq::empty()
    } else {
        proof {
            node.lemma_child_smaller(n - 1);
        }
        html_upto(node, (n - 1) as nat) + html_of(node.kids()[n - 1])
    }
}

/// Writes the tags for `styles`, opening or closing.
fn tags(styles: &AttrSet<FontStyle>, close: bool) -> (out: String)
    ensures
        out@ == if close {
            closing(styles.order(), styles.order().len())
        } else {
            opening(styles.order(), styles.order().len())
        },
{
    let mut out = String::new();
    let mut i: usize = 0;
    while i < styles.len()
        invariant
            i <= styles.order().len(),
            out@ == if close {
                closing(styles.order(), i as nat)
            } else {
                opening(styles.order(), i as nat)
            },
        decreases styles.order().len() - i,
    {
        let ghost before = out@;
        if close {
            out.append("</");
        } else {
            out.append("<");
        }
        out.append(styles.get(i).tag_name());
        out.append(">");
        i = i + 1;
        proof {
            if close {
                assert(out@ =~= before + "</"@ + tag_of(styles.order()[i - 1]) + ">"@);
            } else {
                assert(out@ =~= before + "<"@ + tag_of(styles.order()[i - 1]) + ">"@);
            }
        }
    }
    out
}

/// The HTML for the subtree of `node`.
pub fn to_html_node(node: &Node<FontStyle>) -> (out: String)
    ensures
        out@ == html_of(*node),
    decreases node,
{
    let mut out = tags(node.infos(), false);
    let ghost head = out@;
    if node.is_leaf() {
        let text = node.text();
        out.append(text.as_str());
    } else {
        let kids = node.children();
        let mut i: usize = 0;
        while i < kids.len()
            invariant
                i <= kids@.len(),
                kids@ == node.kids(),
                out@ == head + html_upto(*node, i as nat),
            decreases kids@.len() - i,
        {
            proof {
                node.lemma_child_smaller(i as int);
            }
            let part = to_html_node(&kids[i]);
            out.append(part.as_str());
            i = i + 1;
            proof {
                assert(out@ =~= head + html_upto(*node, i as nat));
            }
        }
    }
    let tail = tags(node.infos(), true);
    out.append(tail.as_str());
    out
}

/// The document as HTML: a paragraph with the tree in it.
pub fn to_html(tree: &Tree<FontStyle>) -> (out: String)
    ensures
        out@ == "<p>"@ + html_of(tree.root()) + "</p>"@,
{
    let mut out = String::new();
    out.append("<p>");
    let body = to_html_node(tree.get_root());
    out.append(body.as_str());
    out.append("</p>");
    proof {
        assert(out@ =~= "<p>"@ + html_of(tree.root()) + "</p>"@);
    }
    out
}

} // verus!
