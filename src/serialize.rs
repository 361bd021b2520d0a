//! Markup text for a document or a subtree.
use vstd::prelude::*;
use vstd::std_specs::iter::IteratorSpec;
use crate::document::{Attr, Document, attr_pairs};
use crate::node::{Node, NodeType};

verus! {

broadcast use vstd::string::group_string_axioms;

/// Relies on `String::push`: the character is appended at the end.
#[verifier::external_body]
fn push_char(s: &mut String, c: char)
    ensures
        final(s)@ == old(s)@.push(c),
{
    s.push(c)
}

/// The markup for one character of text or of an attribute value.
pub open spec fn escape_char(c: char, in_attr: bool) -> Seq<char> {
    if c == '&' {
        "&amp;"@
    } else if c == '<' {
        "&lt;"@
    } else if c == '>' {
        "&gt;"@
    } else if c == '\r' {
        "&#13;"@
    } else if c == '"' && in_attr {
        "&quot;"@
    } else if c == '\n' && in_attr {
        "&#10;"@
    } else if c == '\t' && in_attr {
        "&#9;"@
    } else {
        seq![c]
    }
}

/// `s` with the characters that markup reserves replaced by references.
pub open spec fn escape(s: Seq<char>, in_attr: bool) -> Seq<char>
    decreases s.len(),
{
    if s.len() == 0 {
        Seq::empty()
    } else {
        escape(s.drop_last(), in_attr) + escape_char(s.last(), in_attr)
    }
}

/// The text of a CDATA section, each `]]>` in it split across two
/// sections so that none ends the section early.
pub open spec fn cdata_body(s: Seq<char>) -> Seq<char>
    decreases s.len(),
{
    if s.len() == 0 {
        Seq::empty()
    } else if s.last() == '>' && s.len() >= 3 && s[s.len() - 2] == ']' && s[s.len() - 3] == ']' {
        cdata_body(s.drop_last()) + "]]><![CDATA[>"@
    } else {
        cdata_body(s.drop_last()) + seq![s.last()]
    }
}

/// ` name="value"` for each attribute, in order.
pub open spec fn attrs_markup(a: Seq<(Seq<char>, Seq<char>)>) -> Seq<char>
    decreases a.len(),
{
    if a.len() == 0 {
        Seq::empty()
    } else {
        attrs_markup(a.drop_last()) + " "@ + a.last().0 + "=\""@ + escape(a.last().1, true) + "\""@
    }
}

/// Two spaces per level.
pub open spec fn indent(level: nat) -> Seq<char>
    decreases level,
{
    if level == 0 {
        Seq::empty()
    } else {
        indent((level - 1) as nat) + "  "@
    }
}

/// Whether a child of this kind keeps its parent's children on one line.
pub open spec fn is_inline(k: NodeType) -> bool {
    k == NodeType::TextNode || k == NodeType::CDataSectionNode || k == NodeType::EntityRefNode
}

impl Document {
    /// Some handle of `s` is a text-like node.
    pub open spec fn any_inline(&self, s: Seq<usize>) -> bool {
        exists|i: int| 0 <= i < s.len() && is_inline(#[trigger] self.kind(s[i] as int))
    }

    /// The markup of `h`, at most `fuel` levels down. With `fmt`, element
    /// children go one per line, indented from `level`, unless a sibling
    /// among them is text.
    pub open spec fn markup(&self, h: int, fuel: nat, fmt: bool, level: nat) -> Seq<char>
        decreases fuel, 0nat,
    {
        if fuel == 0 {
            Seq::empty()
        } else {
            let k = self.kind(h);
            let kids = self.children(h);
            if k == NodeType::ElementNode {
                let open = "<"@ + self.name(h) + attrs_markup(self.attrs(h));
                if kids.len() == 0 {
                    open + "/>"@
                } else if fmt && !self.any_inline(kids) {
                    open + ">"@ + self.markup_block(kids, (fuel - 1) as nat, level + 1) + "\n"@
                        + indent(level) + "</"@ + self.name(h) + ">"@
                } else {
                    open + ">"@ + self.markup_all(kids, (fuel - 1) as nat) + "</"@ + self.name(h)
                        + ">"@
                }
            } else if k == NodeType::TextNode {
                escape(self.text(h), false)
            } else if k == NodeType::CDataSectionNode {
                "<![CDATA["@ + cdata_body(self.text(h)) + "]]>"@
            } else if k == NodeType::CommentNode {
                "<!--"@ + self.text(h) + "-->"@
            } else if k == NodeType::PiNode {
                if self.text(h).len() == 0 {
                    "<?"@ + self.name(h) + "?>"@
                } else {
                    "<?"@ + self.name(h) + " "@ + self.text(h) + "?>"@
                }
            } else if k == NodeType::EntityRefNode {
                "&"@ + self.name(h) + ";"@
            } else if k == NodeType::DocumentNode || k == NodeType::DocumentFragNode {
                self.markup_all(kids, (fuel - 1) as nat)
            } else {
                Seq::empty()
            }
        }
    }

    /// The unformatted markup of the handles `s`, one after another.
    pub open spec fn markup_all(&self, s: Seq<usize>, fuel: nat) -> Seq<char>
        decreases fuel, s.len(),
    {
        if s.len() == 0 {
            Seq::empty()
        } else {
            self.markup_all(s.drop_last(), fuel) + self.markup(s.last() as int, fuel, false, 0)
        }
    }

    /// The formatted markup of the handles `s`, each on a new line at `level`.
    pub open spec fn markup_block(&self, s: Seq<usize>, fuel: nat, level: nat) -> Seq<char>
        decreases fuel, s.len(),
    {
        if s.len() == 0 {
            Seq::empty()
        } else {
            self.markup_block(s.drop_last(), fuel, level) + "\n"@ + indent(level) + self.markup(
                s.last() as int,
                fuel,
                true,
                level,
            )
        }
    }

    /// The markup of the whole document: the XML declaration, then each
    /// child of the document node on a line of its own.
    pub open spec fn document_markup(&self, fmt: bool) -> Seq<char> {
        "<?xml version=\"1.0\" encoding=\"UTF-8\"?>\n"@ + self.top_level(self.children(0), fmt)
    }

    /// Each handle of `s` followed by a line break.
    pub open spec fn top_level(&self, s: Seq<usize>, fmt: bool) -> Seq<char>
        decreases s.len(),
    {
        if s.len() == 0 {
            Seq::empty()
        } else {
            self.top_level(s.drop_last(), fmt) + self.markup(s.last() as int, self.size(), fmt, 0)
                + "\n"@
        }
    }
}

fn escape_into(out: &mut String, s: &String, in_attr: bool)
    ensures
        final(out)@ == old(out)@ + escape(s@, in_attr),
{
    let ghost start = out@;
    let mut it = s.as_str().chars();
    let ghost mut done: Seq<char> = Seq::empty();
    proof {
        assert(start + escape(done, in_attr) =~= start);
    }
    loop
        invariant
            done + it.remaining() == s@,
            out@ == start + escape(done, in_attr),
            done.len() <= s@.len(),
        ensures
            done == s@,
        decreases s@.len() - done.len(),
    {
        match it.next() {
            None => {
                proof {
                    assert(done =~= s@);
                }
                break;
            },
            Some(c) => {
                proof {
                    assert(done.push(c).drop_last() =~= done);
                    assert(done.push(c) + it.remaining() =~= s@);
                }
                if c == '&' {
                    out.append("&amp;");
                } else if c == '<' {
                    out.append("&lt;");
                } else if c == '>' {
                    out.append("&gt;");
                } else if c == '\r' {
                    out.append("&#13;");
                } else if c == '"' && in_attr {
                    out.append("&quot;");
                } else if c == '\n' && in_attr {
                    out.append("&#10;");
                } else if c == '\t' && in_attr {
                    out.append("&#9;");
                } else {
                    push_char(out, c);
                    proof {
                        assert(out@ =~= start + escape(done, in_attr) + seq![c]);
                    }
                }
                proof {
                    assert(out@ =~= start + escape(done.push(c), in_attr));
                    done = done.push(c);
                }
            },
        }
    }
}


fn cdata_into(out: &mut String, s: &String)
    ensures
        final(out)@ == old(out)@ + cdata_body(s@),
{
    let ghost start = out@;
    let mut it = s.as_str().chars();
    let ghost mut done: Seq<char> = Seq::empty();
    let mut b1 = false;
    let mut b2 = false;
    proof {
        assert(start + cdata_body(done) =~= start);
    }
    loop
        invariant
            done + it.remaining() == s@,
            out@ == start + cdata_body(done),
            done.len() <= s@.len(),
            b1 == (done.len() >= 1 && done.last() == ']'),
            b2 == (done.len() >= 2 && done[done.len() - 2] == ']'),
        ensures
            done == s@,
        decreases s@.len() - done.len(),
    {
        match it.next() {
            None => {
                proof {
                    assert(done =~= s@);
                }
                break;
            },
            Some(c) => {
                let ghost next = done.push(c);
                proof {
                    assert(next.drop_last() =~= done);
                    assert(next + it.remaining() =~= s@);
                }
                if c == '>' && b1 && b2 {
                    out.append("]]><![CDATA[>");
                } else {
                    push_char(out, c);
                }
                proof {
                    assert(out@ =~= start + cdata_body(next));
                    done = next;
                }
                b2 = b1;
                b1 = c == ']';
            },
        }
    }
}

fn attrs_into(out: &mut String, a: &Vec<Attr>)
    ensures
        final(out)@ == old(out)@ + attrs_markup(attr_pairs(a@)),
{
    let ghost start = out@;
    let ghost p = attr_pairs(a@);
    let mut i: usize = 0;
    proof {
        assert(p.subrange(0, 0) =~= Seq::empty());
        assert(start + attrs_markup(p.subrange(0, 0)) =~= start);
    }
    while i < a.len()
        invariant
            0 <= i <= a@.len(),
            p == attr_pairs(a@),
            out@ == start + attrs_markup(p.subrange(0, i as int)),
        decreases a@.len() - i,
    {
        proof {
            assert(p.subrange(0, i + 1).drop_last() =~= p.subrange(0, i as int));
            assert(p.subrange(0, i + 1).last() == (a@[i as int].name@, a@[i as int].value@));
        }
        out.append(" ");
        out.append(a[i].name.as_str());
        out.append("=\"");
        escape_into(out, &a[i].value, true);
        out.append("\"");
        proof {
            assert(out@ =~= start + attrs_markup(p.subrange(0, i + 1)));
        }
        i = i + 1;
    }
    proof {
        assert(p.subrange(0, i as int) =~= p);
    }
}

fn indent_into(out: &mut String, level: usize)
    ensures
        final(out)@ == old(out)@ + indent(level as nat),
{
    let ghost start = out@;
    let mut i: usize = 0;
    proof {
        assert(start + indent(0) =~= start);
    }
    while i < level
        invariant
            0 <= i <= level,
            out@ == start + indent(i as nat),
        decreases level - i,
    {
        out.append("  ");
        i = i + 1;
        proof {
            assert(out@ =~= start + indent(i as nat));
        }
    }
}

impl Document {
    fn any_inline_exec(&self, s: &Vec<usize>) -> (r: bool)
        requires
            forall|i: int| 0 <= i < s@.len() ==> self.contains(#[trigger] s@[i] as int),
        ensures
            r == self.any_inline(s@),
    {
        let mut i: usize = 0;
        while i < s.len()
            invariant
                0 <= i <= s@.len(),
                forall|j: int| 0 <= j < s@.len() ==> self.contains(#[trigger] s@[j] as int),
                forall|j: int| 0 <= j < i ==> !is_inline(#[trigger] self.kind(s@[j] as int)),
            decreases s@.len() - i,
        {
            let k = self.rec_ref(s[i]).kind;
            if k == NodeType::TextNode || k == NodeType::CDataSectionNode || k
                == NodeType::EntityRefNode {
                proof {
                    assert(is_inline(self.kind(s@[i as int] as int)));
                }
                return true;
            }
            i = i + 1;
        }
        false
    }

    #[verifier::rlimit(100)]
    fn markup_rec(&self, h: usize, fuel: usize, fmt: bool, level: usize, out: &mut String)
        requires
            self.wf(),
            self.contains(h as int),
            level + fuel <= usize::MAX,
        ensures
            final(out)@ == old(out)@ + self.markup(h as int, fuel as nat, fmt, level as nat),
        decreases fuel, 0nat,
    {
        if fuel == 0 {
            proof {
                assert(old(out)@ + Seq::<char>::empty() =~= old(out)@);
            }
            return;
        }
        let ghost start = out@;
        let d = self.rec_ref(h);
        proof {
            assert(self.links_ok(h as int));
            assert(d.children@.subrange(0, d.children@.len() as int) =~= d.children@);
        }
        let k = d.kind;
        if k == NodeType::ElementNode {
            out.append("<");
            out.append(d.name.as_str());
            attrs_into(out, &d.attrs);
            if d.children.len() == 0 {
                out.append("/>");
            } else if fmt && !self.any_inline_exec(&d.children) {
                out.append(">");
                self.block_rec(&d.children, d.children.len(), fuel - 1, level + 1, out);
                out.append("\n");
                indent_into(out, level);
                out.append("</");
                out.append(d.name.as_str());
                out.append(">");
            } else {
                out.append(">");
                self.all_rec(&d.children, d.children.len(), fuel - 1, out);
                out.append("</");
                out.append(d.name.as_str());
                out.append(">");
            }
        } else if k == NodeType::TextNode {
            escape_into(out, &d.content, false);
        } else if k == NodeType::CDataSectionNode {
            out.append("<![CDATA[");
            cdata_into(out, &d.content);
            out.append("]]>");
        } else if k == NodeType::CommentNode {
            out.append("<!--");
            out.append(d.content.as_str());
            out.append("-->");
        } else if k == NodeType::PiNode {
            out.append("<?");
            out.append(d.name.as_str());
            if !d.content.as_str().is_empty() {
                out.append(" ");
                out.append(d.content.as_str());
            }
            out.append("?>");
        } else if k == NodeType::EntityRefNode {
            out.append("&");
            out.append(d.name.as_str());
            out.append(";");
        } else if k == NodeType::DocumentNode || k == NodeType::DocumentFragNode {
            self.all_rec(&d.children, d.children.len(), fuel - 1, out);
        } else {
        }
        proof {
            assert(out@ =~= start + self.markup(h as int, fuel as nat, fmt, level as nat));
        }
    }

    fn all_rec(&self, s: &Vec<usize>, n: usize, fuel: usize, out: &mut String)
        requires
            self.wf(),
            n <= s@.len(),
            fuel < usize::MAX,
            forall|i: int| 0 <= i < s@.len() ==> self.contains(#[trigger] s@[i] as int),
        ensures
            final(out)@ == old(out)@ + self.markup_all(s@.subrange(0, n as int), fuel as nat),
        decreases fuel, n,
    {
        if n == 0 {
            proof {
                assert(old(out)@ + Seq::<char>::empty() =~= old(out)@);
            }
            return;
        }
        let ghost start = out@;
        self.all_rec(s, n - 1, fuel, out);
        self.markup_rec(s[n - 1], fuel, false, 0, out);
        proof {
            assert(s@.subrange(0, n as int).drop_last() =~= s@.subrange(0, n - 1));
            assert(out@ =~= start + self.markup_all(s@.subrange(0, n as int), fuel as nat));
        }
    }

    fn block_rec(&self, s: &Vec<usize>, n: usize, fuel: usize, level: usize, out: &mut String)
        requires
            self.wf(),
            n <= s@.len(),
            level + fuel <= usize::MAX,
            forall|i: int| 0 <= i < s@.len() ==> self.contains(#[trigger] s@[i] as int),
        ensures
            final(out)@ == old(out)@ + self.markup_block(s@.subrange(0, n as int), fuel as nat, level as nat),
        decreases fuel, n,
    {
        if n == 0 {
            proof {
                assert(old(out)@ + Seq::<char>::empty() =~= old(out)@);
            }
            return;
        }
        let ghost start = out@;
        self.block_rec(s, n - 1, fuel, level, out);
        out.append("\n");
        indent_into(out, level);
        self.markup_rec(s[n - 1], fuel, true, level, out);
        proof {
            assert(s@.subrange(0, n as int).drop_last() =~= s@.subrange(0, n - 1));
            assert(out@ =~= start + self.markup_block(s@.subrange(0, n as int), fuel as nat, level as nat));
        }
    }

    /// The markup of the whole document, optionally formatted.
    pub fn to_string(&self, format: bool) -> (r: String)
        requires
            self.wf(),
        ensures
            r@ == self.document_markup(format),
    {
        let mut out = String::new();
        out.append("<?xml version=\"1.0\" encoding=\"UTF-8\"?>\n");
        let ghost start = out@;
        let kids = &self.rec_ref(0).children;
        let ghost s = kids@;
        proof {
            assert(self.links_ok(0));
            assert(start + self.top_level(s.subrange(0, 0), format) =~= start);
        }
        let mut i: usize = 0;
        while i < kids.len()
            invariant
                0 <= i <= s.len(),
                kids@ == s,
                s == self.children(0),
                self.wf(),
                self.links_ok(0),
                out@ == start + self.top_level(s.subrange(0, i as int), format),
            decreases s.len() - i,
        {
            proof {
                assert(s.subrange(0, i + 1).drop_last() =~= s.subrange(0, i as int));
            }
            self.markup_rec(kids[i], self.nodes_len(), format, 0, &mut out);
            out.append("\n");
            i = i + 1;
            proof {
                assert(out@ =~= start + self.top_level(s.subrange(0, i as int), format));
            }
        }
        proof {
            assert(s.subrange(0, i as int) =~= s);
        }
        out
    }
}

impl Node {
    /// The markup of this node's subtree, optionally formatted as at
    /// indentation level one.
    pub fn to_string(&self, doc: &Document, format: bool) -> (r: String)
        requires
            doc.wf(),
            doc.contains(self@ as int),
        ensures
            r@ == doc.markup(self@ as int, doc.size(), format, 1),
    {
        let mut out = String::new();
        doc.markup_rec(self.node_ptr(), doc.nodes_len(), format, 1, &mut out);
        proof {
            assert(Seq::<char>::empty() + doc.markup(self@ as int, doc.size(), format, 1) =~= doc.markup(self@ as int, doc.size(), format, 1));
        }
        out
    }
}


proof fn lemma_markup_same(a: &Document, b: &Document, h: int, fuel: nat, fmt: bool, level: nat)
    requires
        a.wf(),
        b.same_tree(a),
        a.contains(h),
    ensures
        b.markup(h, fuel, fmt, level) == a.markup(h, fuel, fmt, level),
    decreases fuel, 0nat,
{
    assert(b.rec(h) == a.rec(h));
    if fuel > 0 {
        assert(a.links_ok(h));
        let kids = a.children(h);
        lemma_all_same(a, b, kids, (fuel - 1) as nat);
        lemma_block_same(a, b, kids, (fuel - 1) as nat, level + 1);
        assert forall|i: int| 0 <= i < kids.len() implies #[trigger] b.kind(kids[i] as int) == a.kind(kids[i] as int) by {
            assert(b.rec(kids[i] as int) == a.rec(kids[i] as int));
        }
        if a.any_inline(kids) {
            let i = choose|i: int| 0 <= i < kids.len() && is_inline(#[trigger] a.kind(kids[i] as int));
            assert(is_inline(b.kind(kids[i] as int)));
        }
        if b.any_inline(kids) {
            let i = choose|i: int| 0 <= i < kids.len() && is_inline(#[trigger] b.kind(kids[i] as int));
            assert(is_inline(a.kind(kids[i] as int)));
        }
    }
}

proof fn lemma_all_same(a: &Document, b: &Document, s: Seq<usize>, fuel: nat)
    requires
        a.wf(),
        b.same_tree(a),
        forall|i: int| 0 <= i < s.len() ==> a.contains(#[trigger] s[i] as int),
    ensures
        b.markup_all(s, fuel) == a.markup_all(s, fuel),
    decreases fuel, s.len(),
{
    if s.len() > 0 {
        lemma_all_same(a, b, s.drop_last(), fuel);
        lemma_markup_same(a, b, s.last() as int, fuel, false, 0);
    }
}

proof fn lemma_block_same(a: &Document, b: &Document, s: Seq<usize>, fuel: nat, level: nat)
    requires
        a.wf(),
        b.same_tree(a),
        forall|i: int| 0 <= i < s.len() ==> a.contains(#[trigger] s[i] as int),
    ensures
        b.markup_block(s, fuel, level) == a.markup_block(s, fuel, level),
    decreases fuel, s.len(),
{
    if s.len() > 0 {
        lemma_block_same(a, b, s.drop_last(), fuel, level);
        lemma_markup_same(a, b, s.last() as int, fuel, true, level);
    }
}

proof fn lemma_top_same(a: &Document, b: &Document, s: Seq<usize>, fmt: bool)
    requires
        a.wf(),
        b.same_tree(a),
        forall|i: int| 0 <= i < s.len() ==> a.contains(#[trigger] s[i] as int),
    ensures
        b.top_level(s, fmt) == a.top_level(s, fmt),
    decreases s.len(),
{
    if s.len() > 0 {
        lemma_top_same(a, b, s.drop_last(), fmt);
        lemma_markup_same(a, b, s.last() as int, a.size(), fmt, 0);
    }
}

/// Serialization reads the tree alone: navigating, which only registers
/// wrappers, leaves the markup of the document and of every node as it was,
/// so serializing an unchanged tree twice gives the same text.
pub proof fn law_markup_survives_navigation(
    before: &Document,
    after: &Document,
    hs: Set<usize>,
    fmt: bool,
    h: int,
)
    requires
        before.wf(),
        after.registered(before, hs),
        before.contains(h),
    ensures
        after.document_markup(fmt) == before.document_markup(fmt),
        after.markup(h, after.size(), fmt, 1) == before.markup(h, before.size(), fmt, 1),
{
    assert(before.links_ok(0));
    assert(after.rec(0) == before.rec(0));
    lemma_top_same(before, after, before.children(0), fmt);
    lemma_markup_same(before, after, h, before.size(), fmt, 1);
}

} // verus!
