//! From a value tree to text, compact or indented.

use vstd::prelude::*;
use vstd::string::StringExecFns;
use crate::escape::{escape_spec, StringEscaper};
use crate::number::number_text;
use crate::text::push_char;
use crate::value::{lemma_view_unfold, members_view, values_view, JsonValue, ValueView};

verus! {

/// The indentation of nesting level `level`: four spaces for each level.
pub open spec fn indent_text(level: nat) -> Seq<char>
    decreases level,
{
    if level == 0 {
        Seq::empty()
    } else {
        indent_text((level - 1) as nat) + seq![' ', ' ', ' ', ' ']
    }
}

/// A string literal: the escaped text between two quotes.
pub open spec fn quoted(s: Seq<char>) -> Seq<char> {
    seq!['"'] + escape_spec(s) + seq!['"']
}

/// What stands between two elements or two members.
pub open spec fn separator(pretty: bool) -> Seq<char> {
    if pretty {
        seq![',', '\n']
    } else {
        seq![',']
    }
}

/// The text of a value that stands at nesting level `level`. The compact form
/// holds no whitespace outside strings. The indented form gives every element
/// and every member a line of its own, one level deeper than the brackets
/// round them; an empty array or object is two brackets in both forms.
pub open spec fn render(v: ValueView, level: nat, pretty: bool) -> Seq<char>
    decreases v, 0nat,
{
    match v {
        ValueView::Null => seq!['n', 'u', 'l', 'l'],
        ValueView::Bool(b) => if b {
            seq!['t', 'r', 'u', 'e']
        } else {
            seq!['f', 'a', 'l', 's', 'e']
        },
        ValueView::Number(n) => number_text(n),
        ValueView::String(s) => quoted(s),
        ValueView::Array(items) => if items.len() == 0 {
            seq!['[', ']']
        } else if pretty {
            seq!['[', '\n'] + render_elements(items, 0, level + 1, true) + seq!['\n']
                + indent_text(level) + seq![']']
        } else {
            seq!['['] + render_elements(items, 0, level + 1, false) + seq![']']
        },
        ValueView::Object(members) => if members.len() == 0 {
            seq!['{', '}']
        } else if pretty {
            seq!['{', '\n'] + render_members(members, 0, level + 1, true) + seq!['\n']
                + indent_text(level) + seq!['}']
        } else {
            seq!['{'] + render_members(members, 0, level + 1, false) + seq!['}']
        },
    }
}

/// One element as it stands in its array, at nesting level `level`.
pub open spec fn render_element(v: ValueView, level: nat, pretty: bool) -> Seq<char>
    decreases v, 1nat,
{
    if pretty {
        indent_text(level) + render(v, level, true)
    } else {
        render(v, level, false)
    }
}

/// The elements from the `i`-th on, with the separator between each two.
pub open spec fn render_elements(items: Seq<ValueView>, i: int, level: nat, pretty: bool) -> Seq<
    char,
>
    decreases items, items.len() - i,
{
    if i < 0 || i >= items.len() {
        Seq::empty()
    } else if i + 1 == items.len() {
        render_element(items[i], level, pretty)
    } else {
        render_element(items[i], level, pretty) + separator(pretty) + render_elements(
            items,
            i + 1,
            level,
            pretty,
        )
    }
}

/// One member as it stands in its object, at nesting level `level`.
pub open spec fn render_member(key: Seq<char>, v: ValueView, level: nat, pretty: bool) -> Seq<
    char,
>
    decreases v, 1nat,
{
    if pretty {
        indent_text(level) + quoted(key) + seq![':', ' '] + render(v, level, true)
    } else {
        quoted(key) + seq![':'] + render(v, level, false)
    }
}

/// The members from the `i`-th on, with the separator between each two.
pub open spec fn render_members(
    members: Seq<(Seq<char>, ValueView)>,
    i: int,
    level: nat,
    pretty: bool,
) -> Seq<char>
    decreases members, members.len() - i,
{
    if i < 0 || i >= members.len() {
        Seq::empty()
    } else if i + 1 == members.len() {
        render_member(members[i].0, members[i].1, level, pretty)
    } else {
        render_member(members[i].0, members[i].1, level, pretty) + separator(pretty)
            + render_members(members, i + 1, level, pretty)
    }
}

/// The indentation of nesting level `level`.
pub fn indent_str(level: usize) -> (r: String)
    ensures
        r@ == indent_text(level as nat),
{
    let mut out = String::new();
    let mut i: usize = 0;
    while i < level
        invariant
            i <= level,
            out@ == indent_text(i as nat),
        decreases level - i,
    {
        push_level(&mut out);
        i += 1;
    }
    out
}

/// Appends the indentation of one level.
fn push_level(out: &mut String)
    ensures
        final(out)@ == old(out)@ + seq![' ', ' ', ' ', ' '],
{
    push_char(out, ' ');
    push_char(out, ' ');
    push_char(out, ' ');
    push_char(out, ' ');
    assert(final(out)@ =~= old(out)@ + seq![' ', ' ', ' ', ' ']);
}

/// Appends `s` as a string literal.
fn push_quoted(out: &mut String, s: &str)
    ensures
        final(out)@ == old(out)@ + quoted(s@),
{
    push_char(out, '"');
    let escaped = StringEscaper::escape(s);
    out.append(escaped.as_str());
    push_char(out, '"');
    assert(final(out)@ =~= old(out)@ + quoted(s@));
}

impl JsonValue {
    /// The compact text of the value.
    pub fn to_json_string(&self) -> (r: String)
        ensures
            r@ == render(self@, 0, false),
    {
        let indent = String::new();
        self.format(indent.as_str(), false, Ghost(0))
    }

    /// The indented text of the value.
    pub fn to_json_string_pretty(&self) -> (r: String)
        ensures
            r@ == render(self@, 0, true),
    {
        let indent = String::new();
        self.format(indent.as_str(), true, Ghost(0))
    }

    /// The indented text of the value as it stands at nesting level `indent`.
    pub fn to_json_string_indent(&self, indent: usize) -> (r: String)
        ensures
            r@ == render(self@, indent as nat, true),
    {
        let text = indent_str(indent);
        self.format(text.as_str(), true, Ghost(indent as nat))
    }

    fn format(&self, indent: &str, pretty: bool, Ghost(level): Ghost<nat>) -> (r: String)
        requires
            indent@ == indent_text(level),
        ensures
            r@ == render(self@, level, pretty),
        decreases self,
    {
        proof {
            lemma_view_unfold(*self);
        }
        match self {
            JsonValue::Null => {
                let mut out = String::new();
                push_char(&mut out, 'n');
                push_char(&mut out, 'u');
                push_char(&mut out, 'l');
                push_char(&mut out, 'l');
                assert(out@ =~= seq!['n', 'u', 'l', 'l']);
                out
            },
            JsonValue::Bool(b) => {
                let mut out = String::new();
                if *b {
                    push_char(&mut out, 't');
                    push_char(&mut out, 'r');
                    push_char(&mut out, 'u');
                    push_char(&mut out, 'e');
                    assert(out@ =~= seq!['t', 'r', 'u', 'e']);
                } else {
                    push_char(&mut out, 'f');
                    push_char(&mut out, 'a');
                    push_char(&mut out, 'l');
                    push_char(&mut out, 's');
                    push_char(&mut out, 'e');
                    assert(out@ =~= seq!['f', 'a', 'l', 's', 'e']);
                }
                out
            },
            JsonValue::Number(n) => n.to_string(),
            JsonValue::String(s) => {
                let mut out = String::new();
                push_quoted(&mut out, s.as_str());
                assert(out@ =~= quoted(s@));
                out
            },
            JsonValue::Array(arr) => Self::format_array(arr, indent, pretty, Ghost(level)),
            JsonValue::Object(obj) => Self::format_object(obj, indent, pretty, Ghost(level)),
        }
    }

    fn format_array(
        arr: &Vec<JsonValue>,
        indent: &str,
        pretty: bool,
        Ghost(level): Ghost<nat>,
    ) -> (r: String)
        requires
            indent@ == indent_text(level),
        ensures
            r@ == render(ValueView::Array(values_view(arr@)), level, pretty),
        decreases arr,
    {
        let ghost items = values_view(arr@);
        let mut out = String::new();
        push_char(&mut out, '[');
        if arr.len() == 0 {
            push_char(&mut out, ']');
            assert(out@ =~= seq!['[', ']']);
            return out;
        }
        let mut inner = indent.to_owned();
        push_level(&mut inner);
        if pretty {
            push_char(&mut out, '\n');
        }
        let ghost open = out@;
        let ghost mut head = Seq::<char>::empty();
        let mut i: usize = 0;
        while i < arr.len()
            invariant
                i <= arr.len(),
                items == values_view(arr@),
                inner@ == indent_text(level + 1),
                out@ == open + head,
                head + render_elements(items, i as int, level + 1, pretty) == render_elements(
                    items,
                    0,
                    level + 1,
                    pretty,
                ),
            decreases arr.len() - i,
        {
            proof {
                broadcast use vstd::std_specs::vec::axiom_vec_index_decreases;

                assert(decreases_to!(arr => arr[i as int]));
            }
            let ghost before = out@;
            if pretty {
                out.append(inner.as_str());
            }
            let item = arr[i].format(inner.as_str(), pretty, Ghost(level + 1));
            out.append(item.as_str());
            if i + 1 < arr.len() {
                push_char(&mut out, ',');
                if pretty {
                    push_char(&mut out, '\n');
                }
            }
            proof {
                let element = render_element(items[i as int], level + 1, pretty);
                let tail = render_elements(items, i + 1, level + 1, pretty);
                if i + 1 < arr.len() {
                    assert(out@ =~= before + (element + separator(pretty)));
                    assert(head + (element + separator(pretty) + tail) =~= (head + (element
                        + separator(pretty))) + tail);
                    head = head + (element + separator(pretty));
                } else {
                    assert(out@ =~= before + element);
                    assert(tail =~= Seq::<char>::empty());
                    assert(head + element =~= (head + element) + tail);
                    head = head + element;
                }
                assert(out@ =~= open + head);
            }
            i += 1;
        }
        assert(head =~= render_elements(items, 0, level + 1, pretty));
        if pretty {
            push_char(&mut out, '\n');
            out.append(indent);
        }
        push_char(&mut out, ']');
        proof {
            let body = render_elements(items, 0, level + 1, pretty);
            if pretty {
                assert(out@ =~= seq!['[', '\n'] + body + seq!['\n'] + indent_text(level) + seq![
                    ']',
                ]);
            } else {
                assert(out@ =~= seq!['['] + body + seq![']']);
            }
        }
        out
    }

    fn format_object(
        obj: &Vec<(String, JsonValue)>,
        indent: &str,
        pretty: bool,
        Ghost(level): Ghost<nat>,
    ) -> (r: String)
        requires
            indent@ == indent_text(level),
        ensures
            r@ == render(ValueView::Object(members_view(obj@)), level, pretty),
        decreases obj,
    {
        let ghost members = members_view(obj@);
        let mut out = String::new();
        push_char(&mut out, '{');
        if obj.len() == 0 {
            push_char(&mut out, '}');
            assert(out@ =~= seq!['{', '}']);
            return out;
        }
        let mut inner = indent.to_owned();
        push_level(&mut inner);
        if pretty {
            push_char(&mut out, '\n');
        }
        let ghost open = out@;
        let ghost mut head = Seq::<char>::empty();
        let mut i: usize = 0;
        while i < obj.len()
            invariant
                i <= obj.len(),
                members == members_view(obj@),
                inner@ == indent_text(level + 1),
                out@ == open + head,
                head + render_members(members, i as int, level + 1, pretty) == render_members(
                    members,
                    0,
                    level + 1,
                    pretty,
                ),
            decreases obj.len() - i,
        {
            proof {
                broadcast use vstd::std_specs::vec::axiom_vec_index_decreases;

                assert(decreases_to!(obj => obj[i as int]));
                assert(decreases_to!(obj[i as int] => obj[i as int].1));
            }
            let ghost before = out@;
            if pretty {
                out.append(inner.as_str());
            }
            push_quoted(&mut out, obj[i].0.as_str());
            push_char(&mut out, ':');
            if pretty {
                push_char(&mut out, ' ');
            }
            let item = obj[i].1.format(inner.as_str(), pretty, Ghost(level + 1));
            out.append(item.as_str());
            if i + 1 < obj.len() {
                push_char(&mut out, ',');
                if pretty {
                    push_char(&mut out, '\n');
                }
            }
            proof {
                let member = render_member(
                    members[i as int].0,
                    members[i as int].1,
                    level + 1,
                    pretty,
                );
                let tail = render_members(members, i + 1, level + 1, pretty);
                if i + 1 < obj.len() {
                    assert(out@ =~= before + (member + separator(pretty)));
                    assert(head + (member + separator(pretty) + tail) =~= (head + (member
                        + separator(pretty))) + tail);
                    head = head + (member + separator(pretty));
                } else {
                    assert(out@ =~= before + member);
                    assert(tail =~= Seq::<char>::empty());
                    assert(head + member =~= (head + member) + tail);
                    head = head + member;
                }
                assert(out@ =~= open + head);
            }
            i += 1;
        }
        assert(head =~= render_members(members, 0, level + 1, pretty));
        if pretty {
            push_char(&mut out, '\n');
            out.append(indent);
        }
        push_char(&mut out, '}');
        proof {
            let body = render_members(members, 0, level + 1, pretty);
            if pretty {
                assert(out@ =~= seq!['{', '\n'] + body + seq!['\n'] + indent_text(level) + seq![
                    '}',
                ]);
            } else {
                assert(out@ =~= seq!['{'] + body + seq!['}']);
            }
        }
        out
    }
}

} // verus!
