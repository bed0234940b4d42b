//! A tag tree that renders itself as HTML text.

use vstd::prelude::*;

verus! {

/// One child of a tag: literal text or a nested tag.
pub enum Node {
    Text(String),
    Tag(Tag),
}

/// An element with a name, attributes, and children, rendered as
/// `<name attr="value">children</name>`, or self-closing when empty.
pub struct Tag {
    pub name: String,
    pub attr: Vec<(String, String)>,
    pub child: Vec<Node>,
}

/// A whole document: a `DOCTYPE` line and an `html` element holding
/// the `head` (with the title) and the `body`.
pub struct HTML {
    pub lang: String,
    pub head: Tag,
    pub body: Tag,
}

/// The text a node renders to.
pub open spec fn node_html(n: Node) -> Seq<char>
    decreases n,
{
    match n {
        Node::Text(s) => s@,
        Node::Tag(t) => tag_html(t),
    }
}

/// One attribute rendered as `name="value"`.
pub open spec fn attr_html(a: (String, String)) -> Seq<char> {
    a.0@ + "=\""@ + a.1@ + "\""@
}

/// All attributes rendered in order, with no separator between them.
pub open spec fn attrs_html(attrs: Seq<(String, String)>) -> Seq<char>
    decreases attrs.len(),
{
    if attrs.len() == 0 {
        Seq::empty()
    } else {
        attrs_html(attrs.drop_last()) + attr_html(attrs.last())
    }
}

/// All children rendered in order.
pub open spec fn children_html(cs: Seq<Node>) -> Seq<char>
    decreases cs,
{
    if cs.len() == 0 {
        Seq::empty()
    } else {
        children_html(cs.drop_last()) + node_html(cs.last())
    }
}

/// The text a tag renders to: a childless tag self-closes, any other
/// wraps its children between an opening and a closing tag.
pub open spec fn tag_html(t: Tag) -> Seq<char>
    decreases t,
{
    let open = if t.attr@.len() == 0 {
        "<"@ + t.name@
    } else {
        "<"@ + t.name@ + " "@ + attrs_html(t.attr@)
    };
    if t.child@.len() == 0 {
        open + " />"@
    } else {
        open + ">"@ + children_html(t.child@) + "</"@ + t.name@ + ">"@
    }
}

/// The text a whole document renders to.
pub open spec fn html_doc(h: HTML) -> Seq<char> {
    "<!DOCTYPE html>\n"@ + "<html lang=\""@ + h.lang@ + "\">\n"@ + tag_html(h.head) + tag_html(
        h.body,
    ) + "</html>\n"@
}

impl Node {
    /// Renders this node as HTML text.
    pub fn to_string(&self) -> (r: String)
        ensures
            r@ == node_html(*self),
        decreases *self,
    {
        match self {
            Node::Text(s) => s.clone(),
            Node::Tag(t) => t.to_string(),
        }
    }
}

impl Tag {
    pub fn new(name: &str) -> (t: Tag)
        ensures
            t.name@ == name@,
            t.attr@ =~= Seq::<(String, String)>::empty(),
            t.child@ =~= Seq::<Node>::empty(),
    {
        Tag { name: name.to_owned(), attr: Vec::new(), child: Vec::new() }
    }

    pub fn push_attr(&mut self, name: &str, value: &str)
        ensures
            final(self).name == old(self).name,
            final(self).child == old(self).child,
            final(self).attr@.len() == old(self).attr@.len() + 1,
            final(self).attr@ == old(self).attr@.push((final(self).attr@.last().0, final(self).attr@.last().1)),
            final(self).attr@.last().0@ == name@,
            final(self).attr@.last().1@ == value@,
    {
        self.attr.push((name.to_owned(), value.to_owned()));
    }

    pub fn push_str(&mut self, s: &str)
        ensures
            final(self).name == old(self).name,
            final(self).attr == old(self).attr,
            final(self).child@.len() == old(self).child@.len() + 1,
            final(self).child@ == old(self).child@.push(final(self).child@.last()),
            final(self).child@.last() matches Node::Text(t) && t@ == s@,
    {
        self.child.push(Node::Text(s.to_owned()));
    }

    pub fn push_tag(&mut self, tag: Tag)
        ensures
            final(self).name == old(self).name,
            final(self).attr == old(self).attr,
            final(self).child@ == old(self).child@.push(Node::Tag(tag)),
    {
        self.child.push(Node::Tag(tag));
    }

    /// Renders this tag as HTML text.
    pub fn to_string(&self) -> (r: String)
        ensures
            r@ == tag_html(*self),
        decreases *self,
    {
        let mut html = String::new();
        html.append("<");
        html.append(self.name.as_str());
        if self.attr.len() > 0 {
            html.append(" ");
            let mut i: usize = 0;
            while i < self.attr.len()
                invariant
                    i <= self.attr@.len(),
                    html@ == "<"@ + self.name@ + " "@ + attrs_html(self.attr@.take(i as int)),
                decreases self.attr@.len() - i,
            {
                html.append(self.attr[i].0.as_str());
                html.append("=\"");
                html.append(self.attr[i].1.as_str());
                html.append("\"");
                proof {
                    assert(self.attr@.take(i + 1).drop_last() =~= self.attr@.take(i as int));
                    assert(self.attr@.take(i + 1).last() == self.attr@[i as int]);
                    assert(html@ =~= "<"@ + self.name@ + " "@ + attrs_html(
                        self.attr@.take(i + 1),
                    ));
                }
                i = i + 1;
            }
            proof {
                assert(self.attr@.take(self.attr@.len() as int) =~= self.attr@);
            }
        } else {
            proof {
                assert(html@ =~= "<"@ + self.name@);
            }
        }
        let ghost open = html@;
        if self.child.len() == 0 {
            html.append(" />");
            proof {
                assert(html@ =~= tag_html(*self));
            }
        } else {
            html.append(">");
            let mut i: usize = 0;
            while i < self.child.len()
                invariant
                    i <= self.child@.len(),
                    html@ == open + ">"@ + children_html(self.child@.take(i as int)),
                    decreases_to!(*self => self.child),
                decreases self.child@.len() - i,
            {
                proof {
                    assert(decreases_to!(self.child => self.child@[i as int]));
                }
                let piece = self.child[i].to_string();
                html.append(piece.as_str());
                proof {
                    assert(self.child@.take(i + 1).drop_last() =~= self.child@.take(i as int));
                    assert(self.child@.take(i + 1).last() == self.child@[i as int]);
                    assert(html@ =~= open + ">"@ + children_html(self.child@.take(i + 1)));
                }
                i = i + 1;
            }
            proof {
                assert(self.child@.take(self.child@.len() as int) =~= self.child@);
            }
            html.append("</");
            html.append(self.name.as_str());
            html.append(">");
            proof {
                assert(html@ =~= tag_html(*self));
            }
        }
        html
    }
}

impl HTML {
    /// A fresh document: a `head` holding only a `title` with the given
    /// text, and an empty `body`.
    pub fn new(title: &str, lang: &str) -> (h: HTML)
        ensures
            h.lang@ == lang@,
            h.head.name@ == "head"@,
            h.head.attr@.len() == 0,
            h.head.child@.len() == 1,
            h.head.child@[0] matches Node::Tag(t) && t.name@ == "title"@ && t.attr@.len() == 0
                && t.child@.len() == 1 && (t.child@[0] matches Node::Text(s) && s@ == title@),
            h.body.name@ == "body"@,
            h.body.attr@.len() == 0,
            h.body.child@.len() == 0,
    {
        let title_tag = Tag {
            name: "title".to_owned(),
            attr: Vec::new(),
            child: vec![Node::Text(title.to_owned())],
        };
        HTML {
            lang: lang.to_owned(),
            head: Tag {
                name: "head".to_owned(),
                attr: Vec::new(),
                child: vec![Node::Tag(title_tag)],
            },
            body: Tag::new("body"),
        }
    }

    /// Renders the whole document as HTML text.
    pub fn to_string(&self) -> (r: String)
        ensures
            r@ == html_doc(*self),
    {
        let mut html = String::new();
        html.append("<!DOCTYPE html>\n");
        html.append("<html lang=\"");
        html.append(self.lang.as_str());
        html.append("\">\n");
        let head = self.head.to_string();
        html.append(head.as_str());
        let body = self.body.to_string();
        html.append(body.as_str());
        html.append("</html>\n");
        proof {
            assert(html@ =~= html_doc(*self));
        }
        html
    }
}

} // verus!
