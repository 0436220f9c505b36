//! The directive parser: one script line into a key and its argument.
use vstd::prelude::*;
use crate::number::chars_of;

verus! {

/// The recognised directive keys.
#[derive(Debug, Clone, Copy, PartialEq, Eq, Structural)]
pub enum Key {
    X,
    Y,
    XPad,
    YPad,
    Width,
    Height,
    Spacing,
    Size,
    Justify,
    Rectangle,
    TextBox,
    Text,
}

/// Why a script could not be run.
#[derive(Debug, Clone, Copy, PartialEq, Eq, Structural)]
pub enum LayoutError {
    /// A directive that needs an argument has none.
    MissingArgument,
    /// A numeric argument is not a decimal number.
    MalformedNumber,
    /// A numeric argument, or a coordinate computed from it, is too large.
    OutOfRange,
}

/// A directive: its key and its first argument (empty where none was given).
#[derive(Debug, Clone, PartialEq, Eq)]
pub struct Directive {
    pub key: Key,
    pub arg: String,
}

/// What one script line asks for.
#[derive(Debug, Clone, PartialEq, Eq)]
pub enum Line {
    /// A blank line or a comment.
    Skip,
    /// A line whose key is not recognised.
    Unknown,
    /// A directive.
    Command(Directive),
}

/// The key written by `k`, if it is one of the recognised keys.
pub open spec fn key_of(k: Seq<char>) -> Option<Key> {
    if k == seq!['x'] {
        Some(Key::X)
    } else if k == seq!['y'] {
        Some(Key::Y)
    } else if k == seq!['x', 'p', 'a', 'd'] {
        Some(Key::XPad)
    } else if k == seq!['y', 'p', 'a', 'd'] {
        Some(Key::YPad)
    } else if k == seq!['w', 'i', 'd', 't', 'h'] {
        Some(Key::Width)
    } else if k == seq!['h', 'e', 'i', 'g', 'h', 't'] {
        Some(Key::Height)
    } else if k == seq!['s', 'p', 'a', 'c', 'i', 'n', 'g'] {
        Some(Key::Spacing)
    } else if k == seq!['s', 'i', 'z', 'e'] {
        Some(Key::Size)
    } else if k == seq!['j', 'u', 's', 't', 'i', 'f', 'y'] {
        Some(Key::Justify)
    } else if k == seq!['r', 'e', 'c', 't', 'a', 'n', 'g', 'l', 'e'] {
        Some(Key::Rectangle)
    } else if k == seq!['t', 'e', 'x', 't', 'b', 'o', 'x'] {
        Some(Key::TextBox)
    } else if k == seq!['t', 'e', 'x', 't'] {
        Some(Key::Text)
    } else {
        None
    }
}

/// Every key but `rectangle` takes an argument.
pub open spec fn needs_arg(k: Key) -> bool {
    k != Key::Rectangle
}

/// `k` ends the field that starts at `from`: the next tab at or after
/// `from`, or the end of the line.
pub open spec fn is_field_end(s: Seq<char>, from: int, k: int) -> bool {
    &&& from <= k <= s.len()
    &&& k < s.len() ==> s[k] == '\t'
    &&& forall|j: int| from <= j < k ==> s[j] != '\t'
}

pub open spec fn field_end(s: Seq<char>, from: int) -> int {
    choose|k: int| is_field_end(s, from, k)
}

/// The first field of a line.
pub open spec fn key_text(s: Seq<char>) -> Seq<char> {
    s.take(field_end(s, 0))
}

/// Whether a line has a second field.
pub open spec fn has_arg(s: Seq<char>) -> bool {
    field_end(s, 0) < s.len()
}

/// The second field of a line, or empty where there is none.
pub open spec fn arg_text(s: Seq<char>) -> Seq<char> {
    if has_arg(s) {
        s.subrange(field_end(s, 0) + 1, field_end(s, field_end(s, 0) + 1))
    } else {
        Seq::empty()
    }
}

/// A line that is empty or starts with `#` does nothing.
pub open spec fn is_skipped(s: Seq<char>) -> bool {
    s.len() == 0 || s[0] == '#'
}

proof fn lemma_field_end_unique(s: Seq<char>, from: int, k1: int, k2: int)
    requires
        is_field_end(s, from, k1),
        is_field_end(s, from, k2),
    ensures
        k1 == k2,
{
}

/// The end of the field of `s` that starts at `from`.
fn find_field_end(s: &Vec<char>, from: usize) -> (r: usize)
    requires
        from <= s@.len(),
    ensures
        r == field_end(s@, from as int),
        from <= r <= s@.len(),
        is_field_end(s@, from as int, r as int),
{
    let mut i = from;
    while i < s.len() && s[i] != '\t'
        invariant
            from <= i <= s@.len(),
            forall|j: int| from <= j < i ==> s@[j] != '\t',
        decreases s@.len() - i,
    {
        i = i + 1;
    }
    proof {
        assert(is_field_end(s@, from as int, i as int));
        let k = choose|k: int| is_field_end(s@, from as int, k);
        lemma_field_end_unique(s@, from as int, k, i as int);
    }
    i
}

fn same_text(a: &str, b: &str) -> (r: bool)
    ensures
        r == (a@ == b@),
{
    let n = a.unicode_len();
    if n != b.unicode_len() {
        return false;
    }
    let mut i: usize = 0;
    while i < n
        invariant
            n == a@.len(),
            n == b@.len(),
            i <= n,
            forall|j: int| 0 <= j < i ==> a@[j] == b@[j],
        decreases n - i,
    {
        if a.get_char(i) != b.get_char(i) {
            return false;
        }
        i = i + 1;
    }
    proof {
        assert(a@ =~= b@);
    }
    true
}

/// The key written by `k`.
pub fn key_from(k: &str) -> (r: Option<Key>)
    ensures
        r == key_of(k@),
{
    proof {
        reveal_strlit("x");
        assert("x"@ =~= seq!['x']);
        reveal_strlit("y");
        assert("y"@ =~= seq!['y']);
        reveal_strlit("xpad");
        assert("xpad"@ =~= seq!['x', 'p', 'a', 'd']);
        reveal_strlit("ypad");
        assert("ypad"@ =~= seq!['y', 'p', 'a', 'd']);
        reveal_strlit("width");
        assert("width"@ =~= seq!['w', 'i', 'd', 't', 'h']);
        reveal_strlit("height");
        assert("height"@ =~= seq!['h', 'e', 'i', 'g', 'h', 't']);
        reveal_strlit("spacing");
        assert("spacing"@ =~= seq!['s', 'p', 'a', 'c', 'i', 'n', 'g']);
        reveal_strlit("size");
        assert("size"@ =~= seq!['s', 'i', 'z', 'e']);
        reveal_strlit("justify");
        assert("justify"@ =~= seq!['j', 'u', 's', 't', 'i', 'f', 'y']);
        reveal_strlit("rectangle");
        assert("rectangle"@ =~= seq!['r', 'e', 'c', 't', 'a', 'n', 'g', 'l', 'e']);
        reveal_strlit("textbox");
        assert("textbox"@ =~= seq!['t', 'e', 'x', 't', 'b', 'o', 'x']);
        reveal_strlit("text");
        assert("text"@ =~= seq!['t', 'e', 'x', 't']);
    }
    if same_text(k, "x") {
        Some(Key::X)
    } else if same_text(k, "y") {
        Some(Key::Y)
    } else if same_text(k, "xpad") {
        Some(Key::XPad)
    } else if same_text(k, "ypad") {
        Some(Key::YPad)
    } else if same_text(k, "width") {
        Some(Key::Width)
    } else if same_text(k, "height") {
        Some(Key::Height)
    } else if same_text(k, "spacing") {
        Some(Key::Spacing)
    } else if same_text(k, "size") {
        Some(Key::Size)
    } else if same_text(k, "justify") {
        Some(Key::Justify)
    } else if same_text(k, "rectangle") {
        Some(Key::Rectangle)
    } else if same_text(k, "textbox") {
        Some(Key::TextBox)
    } else if same_text(k, "text") {
        Some(Key::Text)
    } else {
        None
    }
}

/// Parses one script line. Fields are separated by tabs: the first is the
/// key, the second the argument; later fields are ignored.
pub fn parse_line(line: &str) -> (r: Result<Line, LayoutError>)
    ensures
        is_skipped(line@) ==> r matches Ok(Line::Skip),
        !is_skipped(line@) && key_of(key_text(line@)) is None ==> r matches Ok(Line::Unknown),
        !is_skipped(line@) && key_of(key_text(line@)) is Some ==> ({
            let k = key_of(key_text(line@))->Some_0;
            if needs_arg(k) && !has_arg(line@) {
                r == Err::<Line, LayoutError>(LayoutError::MissingArgument)
            } else {
                &&& r matches Ok(Line::Command(d))
                &&& r->Ok_0->Command_0.key == k
                &&& r->Ok_0->Command_0.arg@ == arg_text(line@)
            }
        }),
{
    let cs = chars_of(line);
    if cs.len() == 0 || cs[0] == '#' {
        return Ok(Line::Skip);
    }
    let e0 = find_field_end(&cs, 0);
    let key_str = line.substring_char(0, e0);
    proof {
        assert(key_str@ =~= key_text(line@));
    }
    let key = match key_from(key_str) {
        Some(k) => k,
        None => {
            return Ok(Line::Unknown);
        },
    };
    if e0 == cs.len() {
        if key != Key::Rectangle {
            return Err(LayoutError::MissingArgument);
        }
        return Ok(Line::Command(Directive { key, arg: String::new() }));
    }
    let e1 = find_field_end(&cs, e0 + 1);
    let arg = line.substring_char(e0 + 1, e1).to_owned();
    Ok(Line::Command(Directive { key, arg }))
}

} // verus!
