//! Serialization of a subtree back to markup text.
//!
//! The output format is fixed by `ser_node`: an element is written as an
//! open tag with its attributes in insertion order, its children in
//! document order, and a close tag; text is written verbatim; a comment is
//! written between comment markers; a document root contributes only its
//! children.

use vstd::prelude::*;
use vstd::string::StringExecFns;

use crate::tree::Node;
use crate::tree::Tree;

verus! {

/// The markup text of one attribute: a space, the name, `="`, the value,
/// and a closing quote.
pub open spec fn ser_attr(pair: (String, String)) -> Seq<char> {
    " "@ + pair.0@ + "=\""@ + pair.1@ + "\""@
}

/// The markup text of the attributes of `attrs` from position `j` on.
pub open spec fn ser_attrs(attrs: Seq<(String, String)>, j: int) -> Seq<char>
    decreases attrs.len() - j,
{
    if j < 0 || j >= attrs.len() {
        Seq::empty()
    } else {
        ser_attr(attrs[j]) + ser_attrs(attrs, j + 1)
    }
}

/// The markup text of the subtree rooted at node `i`.
pub open spec fn ser_node(t: Tree, i: int) -> Seq<char>
    decreases t.spec_len() - i, 1int, 0int,
{
    if 0 <= i < t.spec_len() {
        match t.node_of(i) {
            Node::Document => ser_children(t, i, 0),
            Node::Text(s) => s@,
            Node::Comment(c) => "<!--"@ + c@ + "-->"@,
            Node::Element(ed) => "<"@ + ed.name@ + ser_attrs(ed.attrs@, 0) + ">"@ + ser_children(
                t,
                i,
                0,
            ) + "</"@ + ed.name@ + ">"@,
        }
    } else {
        Seq::empty()
    }
}

/// The markup text of the subtrees of the children of `i` from rank `k` on.
pub open spec fn ser_children(t: Tree, i: int, k: int) -> Seq<char>
    decreases t.spec_len() - i, 0int, t.children_of(i).len() - k,
{
    if 0 <= i < t.spec_len() && 0 <= k < t.children_of(i).len() {
        let c = t.children_of(i)[k] as int;
        (if i < c < t.spec_len() {
            ser_node(t, c)
        } else {
            Seq::empty()
        }) + ser_children(t, i, k + 1)
    } else {
        Seq::empty()
    }
}

/// Appends the markup of the attributes of `ed` to `out`.
fn ser_attrs_into(attrs: &Vec<(String, String)>, out: &mut String)
    ensures
        final(out)@ == old(out)@ + ser_attrs(attrs@, 0),
{
    let ghost base = old(out)@;
    let mut j: usize = 0;
    while j < attrs.len()
        invariant
            j <= attrs@.len(),
            out@ + ser_attrs(attrs@, j as int) == base + ser_attrs(attrs@, 0),
        decreases attrs@.len() - j,
    {
        let ghost before = out@;
        out.append(" ");
        out.append(attrs[j].0.as_str());
        out.append("=\"");
        out.append(attrs[j].1.as_str());
        out.append("\"");
        proof {
            assert(out@ =~= before + ser_attr(attrs@[j as int]));
            assert(out@ + ser_attrs(attrs@, j + 1) =~= before + ser_attrs(attrs@, j as int));
        }
        j = j + 1;
    }
    proof {
        assert(out@ + ser_attrs(attrs@, j as int) =~= out@);
    }
}

/// Appends the markup of the subtree rooted at `i` to `out`.
pub fn ser_node_into(t: &Tree, i: usize, out: &mut String)
    requires
        t.wf(),
        i < t.spec_len(),
    ensures
        final(out)@ == old(out)@ + ser_node(*t, i as int),
    decreases t.spec_len() - i, 1int,
{
    match t.node(i) {
        Node::Document => {
            ser_children_into(t, i, out);
        },
        Node::Text(s) => {
            out.append(s.as_str());
        },
        Node::Comment(c) => {
            let ghost before = out@;
            out.append("<!--");
            out.append(c.as_str());
            out.append("-->");
            proof {
                assert(out@ =~= before + ser_node(*t, i as int));
            }
        },
        Node::Element(ed) => {
            let ghost before = out@;
            out.append("<");
            out.append(ed.name.as_str());
            ser_attrs_into(&ed.attrs, out);
            out.append(">");
            ser_children_into(t, i, out);
            out.append("</");
            out.append(ed.name.as_str());
            out.append(">");
            proof {
                assert(out@ =~= before + ser_node(*t, i as int));
            }
        },
    }
}

/// Appends the markup of the children of `i`, in document order, to `out`.
pub fn ser_children_into(t: &Tree, i: usize, out: &mut String)
    requires
        t.wf(),
        i < t.spec_len(),
    ensures
        final(out)@ == old(out)@ + ser_children(*t, i as int, 0),
    decreases t.spec_len() - i, 0int,
{
    let ghost base = old(out)@;
    let cs = t.children(i);
    let mut k: usize = 0;
    while k < cs.len()
        invariant
            t.wf(),
            i < t.spec_len(),
            cs@ == t.children_of(i as int),
            k <= cs@.len(),
            out@ + ser_children(*t, i as int, k as int) == base + ser_children(*t, i as int, 0),
        decreases cs@.len() - k,
    {
        let c = cs[k];
        let ghost before = out@;
        ser_node_into(t, c, out);
        proof {
            assert(out@ + ser_children(*t, i as int, k + 1) =~= before + ser_children(
                *t,
                i as int,
                k as int,
            ));
        }
        k = k + 1;
    }
    proof {
        assert(out@ + ser_children(*t, i as int, k as int) =~= out@);
    }
}

} // verus!
