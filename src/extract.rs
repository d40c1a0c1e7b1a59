//! Field extraction: the title, headings, code blocks and body text of a
//! parsed document.

use vstd::prelude::*;

use crate::model::SearchDocument;
use crate::text::string_of;
use crate::tokenizer::views_of;

verus! {

broadcast use vstd::std_specs::vec::group_vec_axioms;

/// A node of a parsed Markdown document.
pub enum Node {
    Heading { depth: u8, children: Vec<Node> },
    CodeBlock { value: String },
    Text { value: String },
    InlineCode { value: String },
    Emphasis { children: Vec<Node> },
    Strong { children: Vec<Node> },
    Delete { children: Vec<Node> },
    Link { children: Vec<Node> },
    /// A block that holds other nodes: a paragraph, a list, a list item, a
    /// block quote, a table.
    Block { children: Vec<Node> },
    /// A node without text of its own: an image, a break, raw HTML.
    Other,
}

/// The text of a node read inline: text and inline code, through
/// emphasis, strong, strikethrough and links.
pub open spec fn inline_text(n: Node) -> Seq<char>
    decreases n,
{
    match n {
        Node::Text { value } => value@,
        Node::InlineCode { value } => value@,
        Node::Emphasis { children } => inline_texts(children@),
        Node::Strong { children } => inline_texts(children@),
        Node::Delete { children } => inline_texts(children@),
        Node::Link { children } => inline_texts(children@),
        _ => seq![],
    }
}

pub open spec fn inline_texts(ns: Seq<Node>) -> Seq<char>
    decreases ns,
{
    if ns.len() == 0 {
        seq![]
    } else {
        inline_texts(ns.drop_last()) + inline_text(ns.last())
    }
}

/// What a walk collects: heading texts, code block texts, body text.
pub type Collected = (Seq<Seq<char>>, Seq<Seq<char>>, Seq<char>);

pub open spec fn join(a: Collected, b: Collected) -> Collected {
    (a.0 + b.0, a.1 + b.1, a.2 + b.2)
}

/// The fields a node contributes: a heading its text, a code block its
/// text, a block what its children contribute, any other node with text
/// its inline text to the body.
pub open spec fn walk(n: Node) -> Collected
    decreases n,
{
    match n {
        Node::Heading { depth: _, children } => (seq![inline_texts(children@)], seq![], seq![]),
        Node::CodeBlock { value } => (seq![], seq![value@], seq![]),
        Node::Block { children } => walks(children@),
        Node::Other => (seq![], seq![], seq![]),
        _ => (seq![], seq![], inline_text(n)),
    }
}

pub open spec fn walks(ns: Seq<Node>) -> Collected
    decreases ns,
{
    if ns.len() == 0 {
        (seq![], seq![], seq![])
    } else {
        join(walks(ns.drop_last()), walk(ns.last()))
    }
}

/// The title of a document: the override when given and not empty, else
/// the text of the first heading, else empty.
pub open spec fn title_of(headings: Seq<Seq<char>>, title_override: Option<Seq<char>>) -> Seq<char> {
    match title_override {
        Some(t) if t.len() > 0 => t,
        _ => if headings.len() > 0 {
            headings[0]
        } else {
            seq![]
        },
    }
}

fn collect_inline(n: &Node, out: &mut Vec<char>)
    ensures
        final(out)@ == old(out)@ + inline_text(*n),
    decreases n,
{
    match n {
        Node::Text { value } => append_chars(value.as_str(), out),
        Node::InlineCode { value } => append_chars(value.as_str(), out),
        Node::Emphasis { children } => collect_inlines(children, out),
        Node::Strong { children } => collect_inlines(children, out),
        Node::Delete { children } => collect_inlines(children, out),
        Node::Link { children } => collect_inlines(children, out),
        _ => {
            assert(final(out)@ =~= old(out)@ + inline_text(*n));
        },
    }
}

fn collect_inlines(ns: &Vec<Node>, out: &mut Vec<char>)
    ensures
        final(out)@ == old(out)@ + inline_texts(ns@),
    decreases ns,
{
    let n = ns.len();
    let mut i: usize = 0;
    assert(ns@.take(0) =~= Seq::<Node>::empty());
    while i < n
        invariant
            n == ns@.len(),
            0 <= i <= n,
            out@ == old(out)@ + inline_texts(ns@.take(i as int)),
        decreases n - i,
    {
        proof {
            assert(ns@.take(i + 1).drop_last() =~= ns@.take(i as int));
            assert(ns@.take(i + 1).last() == ns@[i as int]);
        }
        collect_inline(&ns[i], out);
        proof {
            assert(out@ =~= old(out)@ + inline_texts(ns@.take(i + 1)));
        }
        i = i + 1;
    }
    assert(ns@.take(n as int) =~= ns@);
}

fn append_chars(s: &str, out: &mut Vec<char>)
    ensures
        final(out)@ == old(out)@ + s@,
{
    let cs = crate::text::chars_of(s);
    let n = cs.len();
    let mut i: usize = 0;
    while i < n
        invariant
            n == cs@.len(),
            cs@ == s@,
            0 <= i <= n,
            out@ == old(out)@ + s@.take(i as int),
        decreases n - i,
    {
        out.push(cs[i]);
        assert(out@ =~= old(out)@ + s@.take(i + 1));
        i = i + 1;
    }
    assert(s@.take(n as int) =~= s@);
}

struct Collector {
    headings: Vec<String>,
    code: Vec<String>,
    body: Vec<char>,
}

impl Collector {
    spec fn view_of(&self) -> Collected {
        (views_of(self.headings@), views_of(self.code@), self.body@)
    }
}

fn walk_node(n: &Node, c: &mut Collector)
    ensures
        final(c).view_of() == join(old(c).view_of(), walk(*n)),
    decreases n,
{
    let ghost before = c.view_of();
    match n {
        Node::Heading { depth: _, children } => {
            let mut text: Vec<char> = Vec::new();
            collect_inlines(children, &mut text);
            assert(text@ =~= inline_texts(children@));
            c.headings.push(string_of(text.as_slice()));
            assert(c.view_of() =~= join(before, walk(*n)));
        },
        Node::CodeBlock { value } => {
            c.code.push(value.clone());
            assert(c.view_of() =~= join(before, walk(*n)));
        },
        Node::Block { children } => walk_nodes(children, c),
        Node::Other => {
            assert(c.view_of() =~= join(before, walk(*n)));
        },
        _ => {
            collect_inline(n, &mut c.body);
            assert(c.view_of() =~= join(before, walk(*n)));
        },
    }
}

fn walk_nodes(ns: &Vec<Node>, c: &mut Collector)
    ensures
        final(c).view_of() == join(old(c).view_of(), walks(ns@)),
    decreases ns,
{
    let n = ns.len();
    let mut i: usize = 0;
    assert(ns@.take(0) =~= Seq::<Node>::empty());
    assert(join(old(c).view_of(), walks(ns@.take(0))) =~= old(c).view_of());
    while i < n
        invariant
            n == ns@.len(),
            0 <= i <= n,
            c.view_of() == join(old(c).view_of(), walks(ns@.take(i as int))),
        decreases n - i,
    {
        proof {
            assert(ns@.take(i + 1).drop_last() =~= ns@.take(i as int));
            assert(ns@.take(i + 1).last() == ns@[i as int]);
        }
        walk_node(&ns[i], c);
        proof {
            assert(c.view_of() =~= join(old(c).view_of(), walks(ns@.take(i + 1))));
        }
        i = i + 1;
    }
    assert(ns@.take(n as int) =~= ns@);
}

/// The searchable content of a parsed document: its headings and code
/// blocks in order, its other text as the body, and its title.
pub fn extract_search_content(
    nodes: &Vec<Node>,
    id: String,
    url: String,
    title_override: Option<String>,
) -> (r: SearchDocument)
    ensures
        r.id@ == id@,
        r.url@ == url@,
        views_of(r.headings@) == walks(nodes@).0,
        views_of(r.code@) == walks(nodes@).1,
        r.body@ == walks(nodes@).2,
        r.title@ == title_of(
            walks(nodes@).0,
            match title_override {
                Some(t) => Some(t@),
                None => None,
            },
        ),
{
    let mut c = Collector { headings: Vec::new(), code: Vec::new(), body: Vec::new() };
    proof {
        assert(c.view_of() =~= (Seq::<Seq<char>>::empty(), Seq::<Seq<char>>::empty(), Seq::<char>::empty()));
    }
    walk_nodes(nodes, &mut c);
    proof {
        assert(c.view_of() =~= walks(nodes@));
    }
    let title = match title_override {
        Some(t) if t.as_str().unicode_len() > 0 => t,
        _ => if c.headings.len() > 0 {
            c.headings[0].clone()
        } else {
            String::new()
        },
    };
    let body = string_of(c.body.as_slice());
    SearchDocument { id, title, url, body, headings: c.headings, code: c.code }
}

} // verus!
