//! A small HTML parser: elements with attributes, text, comments and
//! doctype declarations skipped, void and self-closing elements, and
//! `<script>` elements dropped.

use vstd::prelude::*;
use crate::dom::{DomTree, DomNode, DomNodeId, DomNodeKind, nodes_wf, child, preorder, preorder_kids, xhtml_ns};
use crate::text::{
    scan_until, in_set, not_space, lemma_scan_until, find, find_from, chars_of, string_of,
    to_lowercase, unicode_lowercase, trim, trim_bounds, eq_ignore_ascii_case, all_ascii, ascii_lower,
    chars_eq_ignore_ascii_case, chars_eq, lemma_find_from, occurs_at, matches_at, utf8_width,
    utf8_len, utf8_width_of, utf8_len_of, lemma_utf8_len_front, lemma_utf8_len_bounds, is_ws,
    lemma_trim_edges,
};

verus! {

/// The index of the first stop character at or after `i`.
pub fn scan_to(h: &Vec<char>, i: usize, stops: &Vec<char>) -> (r: usize)
    requires
        i <= h.len(),
    ensures
        r == scan_until(h@, i as int, in_set(stops@)),
        i <= r <= h.len(),
{
    let mut k: usize = i;
    while k < h.len()
        invariant
            i <= k <= h.len(),
            scan_until(h@, i as int, in_set(stops@)) == scan_until(h@, k as int, in_set(stops@)),
        decreases h.len() - k,
    {
        let mut j: usize = 0;
        let mut hit = false;
        while j < stops.len()
            invariant
                k < h.len(),
                j <= stops.len(),
                hit == exists|t: int| 0 <= t < j && stops@[t] == h@[k as int],
            decreases stops.len() - j,
        {
            if stops[j] == h[k] {
                hit = true;
            }
            j += 1;
        }
        assert(hit == stops@.contains(h@[k as int]));
        if hit {
            return k;
        }
        k += 1;
    }
    k
}

/// The index of the first `{` at or after `i`.
pub fn scan_to_brace(h: &Vec<char>, i: usize) -> (r: usize)
    requires
        i <= h.len(),
    ensures
        r == scan_until(h@, i as int, in_set(seq!['{'])),
        i <= r <= h.len(),
{
    let stops = vec!['{'];
    assert(stops@ =~= seq!['{']);
    scan_to(h, i, &stops)
}

/// The index of the first character at or after `i` that is not a space.
fn skip_spaces(h: &Vec<char>, i: usize) -> (r: usize)
    requires
        i <= h.len(),
    ensures
        r == scan_until(h@, i as int, not_space()),
        i <= r <= h.len(),
{
    let mut k: usize = i;
    while k < h.len() && h[k] == ' '
        invariant
            i <= k <= h.len(),
            scan_until(h@, i as int, not_space()) == scan_until(h@, k as int, not_space()),
        decreases h.len() - k,
    {
        k += 1;
    }
    k
}


/// Characters that end a tag name.
pub open spec fn tag_name_stops() -> Seq<char> {
    seq![' ', '>', '/']
}

/// Characters that end an attribute name.
pub open spec fn attr_name_stops() -> Seq<char> {
    seq!['=', ' ', '>', '/']
}

/// Characters that end an unquoted attribute value.
pub open spec fn unquoted_value_stops() -> Seq<char> {
    seq![' ', '>']
}

/// Whether a tag is at its end: past the input, or at `>` or `/`.
pub open spec fn at_tag_end(h: Seq<char>, i: int) -> bool {
    i >= h.len() || h[i] == '>' || h[i] == '/'
}

/// An attribute value that starts at `v0` (just after `=`): a quoted value
/// runs to the matching quote (which is skipped), an unquoted one to a
/// space or `>`. Gives the value and the index after it.
pub open spec fn attr_value(h: Seq<char>, v0: int) -> (Seq<char>, int) {
    if 0 <= v0 < h.len() && (h[v0] == '"' || h[v0] == '\'') {
        let ve = scan_until(h, v0 + 1, in_set(seq![h[v0]]));
        (h.subrange(v0 + 1, ve), if ve < h.len() {
            ve + 1
        } else {
            ve
        })
    } else {
        let ve = scan_until(h, v0, in_set(unquoted_value_stops()));
        (h.subrange(v0, ve), ve)
    }
}

/// The attributes of a start tag read from `pos` on, added to `m` in order
/// (a later one replaces an earlier one of the same name; an empty name is
/// dropped), and the index where the tag's attribute list ends.
pub open spec fn attrs_from(h: Seq<char>, pos: int, m: Map<Seq<char>, Seq<char>>) -> (Map<Seq<char>, Seq<char>>, int)
    decreases h.len() + 1 - pos,
{
    if pos < 0 || at_tag_end(h, pos) {
        (m, pos)
    } else {
        let p1 = scan_until(h, pos, not_space());
        if at_tag_end(h, p1) {
            (m, p1)
        } else {
            let a_end = scan_until(h, p1, in_set(attr_name_stops()));
            let name = h.subrange(p1, a_end);
            if a_end < h.len() && h[a_end] == '=' {
                let (value, next) = attr_value(h, a_end + 1);
                let m2 = if name.len() > 0 {
                    m.insert(name, value)
                } else {
                    m
                };
                if pos < next <= h.len() {
                    attrs_from(h, next, m2)
                } else {
                    (m2, next)
                }
            } else {
                let m2 = if name.len() > 0 {
                    m.insert(name, Seq::empty())
                } else {
                    m
                };
                if pos < a_end <= h.len() {
                    attrs_from(h, a_end, m2)
                } else {
                    (m2, a_end)
                }
            }
        }
    }
}

pub proof fn lemma_attr_value(h: Seq<char>, v0: int)
    requires
        0 <= v0 <= h.len(),
    ensures
        v0 < attr_value(h, v0).1 <= h.len() || (attr_value(h, v0).1 == v0 && (v0 == h.len() || h[v0] == ' ' || h[v0] == '>')),
        v0 <= attr_value(h, v0).1 <= h.len(),
{
    if 0 <= v0 < h.len() && (h[v0] == '"' || h[v0] == '\'') {
        lemma_scan_until(h, v0 + 1, in_set(seq![h[v0]]));
    } else {
        lemma_scan_until(h, v0, in_set(unquoted_value_stops()));
        let ve = scan_until(h, v0, in_set(unquoted_value_stops()));
        if ve == v0 && v0 < h.len() {
            assert(unquoted_value_stops().contains(h[v0]));
            assert(h[v0] == ' ' || h[v0] == '>') by {
                let k = choose|k: int| 0 <= k < 2 && unquoted_value_stops()[k] == h[v0];
            }
        }
    }
}

/// Reads the attributes of a start tag from `pos` on.
fn parse_attributes(h: &Vec<char>, pos: usize) -> (r: (crate::attrs::Attributes, usize))
    requires
        pos <= h.len(),
    ensures
        (r.0@, r.1 as int) == attrs_from(h@, pos as int, Map::empty()),
        pos <= r.1 <= h.len(),
{
    let mut attrs = crate::attrs::Attributes::new();
    let mut p: usize = pos;
    let ghost target = attrs_from(h@, pos as int, Map::empty());
    let tag_stops = vec![' ', '>', '/'];
    let name_stops = vec!['=', ' ', '>', '/'];
    let value_stops = vec![' ', '>'];
    assert(name_stops@ =~= attr_name_stops());
    assert(value_stops@ =~= unquoted_value_stops());
    while p < h.len() && h[p] != '>' && h[p] != '/'
        invariant
            pos <= p <= h.len(),
            name_stops@ == attr_name_stops(),
            value_stops@ == unquoted_value_stops(),
            target == attrs_from(h@, p as int, attrs@),
            target == attrs_from(h@, pos as int, Map::empty()),
        decreases h.len() - p,
    {
        let p1 = skip_spaces(h, p);
        if p1 >= h.len() || h[p1] == '>' || h[p1] == '/' {
            assert(attrs_from(h@, p as int, attrs@) == (attrs@, p1 as int));
            return (attrs, p1);
        }
        let a_end = scan_to(h, p1, &name_stops);
        let name = string_of(h, p1, a_end);
        proof {
            lemma_scan_until(h@, p as int, not_space());
            lemma_scan_until(h@, p1 as int, in_set(attr_name_stops()));
        }
        if a_end < h.len() && h[a_end] == '=' {
            let v0 = a_end + 1;
            let ghost av = attr_value(h@, v0 as int);
            proof {
                lemma_attr_value(h@, v0 as int);
            }
            let (value, next) = if v0 < h.len() && (h[v0] == '"' || h[v0] == '\'') {
                let q = vec![h[v0]];
                let ve = scan_to(h, v0 + 1, &q);
                let val = string_of(h, v0 + 1, ve);
                assert(q@ =~= seq![h@[v0 as int]]);
                (val, if ve < h.len() { ve + 1 } else { ve })
            } else {
                let ve = scan_to(h, v0, &value_stops);
                (string_of(h, v0, ve), ve)
            };
            assert(value@ == av.0 && next == av.1);
            if a_end > p1 {
                attrs.insert(name, value);
            }
            if next <= p {
                return (attrs, next);
            }
            p = next;
        } else {
            if a_end > p1 {
                attrs.insert(name, String::new());
            }
            if a_end <= p {
                return (attrs, a_end);
            }
            p = a_end;
        }
    }
    (attrs, p)
}


/// The element names that never have content.
pub open spec fn void_element_names() -> Seq<Seq<char>> {
    seq![
        "area"@, "base"@, "br"@, "col"@, "embed"@, "hr"@, "img"@, "input"@, "link"@, "meta"@,
        "param"@, "source"@, "track"@, "wbr"@,
    ]
}

/// A tag lower-cased as `str::to_lowercase` does: on ASCII text that is
/// ASCII lower-casing, character by character.
pub open spec fn lowercased(tag: Seq<char>) -> Seq<char> {
    if all_ascii(tag) {
        tag.map_values(|c: char| ascii_lower(c))
    } else {
        unicode_lowercase(tag)
    }
}

/// A tag names a void element (compared after lower-casing).
pub open spec fn is_void(tag: Seq<char>) -> bool {
    void_element_names().contains(lowercased(tag))
}

/// The tag is, ignoring ASCII case, the name of an HTML void element:
/// area, base, br, col, embed, hr, img, input, link, meta, param, source,
/// track or wbr.
pub open spec fn names_void_element(t: Seq<char>) -> bool {
    &&& all_ascii(t)
    &&& {
        ||| eq_ignore_ascii_case(t, "area"@)
        ||| eq_ignore_ascii_case(t, "base"@)
        ||| eq_ignore_ascii_case(t, "br"@)
        ||| eq_ignore_ascii_case(t, "col"@)
        ||| eq_ignore_ascii_case(t, "embed"@)
        ||| eq_ignore_ascii_case(t, "hr"@)
        ||| eq_ignore_ascii_case(t, "img"@)
        ||| eq_ignore_ascii_case(t, "input"@)
        ||| eq_ignore_ascii_case(t, "link"@)
        ||| eq_ignore_ascii_case(t, "meta"@)
        ||| eq_ignore_ascii_case(t, "param"@)
        ||| eq_ignore_ascii_case(t, "source"@)
        ||| eq_ignore_ascii_case(t, "track"@)
        ||| eq_ignore_ascii_case(t, "wbr"@)
    }
}

/// An ASCII tag equal to a lower-case name ignoring ASCII case lower-cases
/// to that name.
proof fn lemma_lowercased_to(t: Seq<char>, name: Seq<char>)
    requires
        all_ascii(t),
        eq_ignore_ascii_case(t, name),
        forall|i: int| 0 <= i < name.len() ==> !('A' <= #[trigger] name[i] <= 'Z'),
    ensures
        lowercased(t) == name,
{
    assert forall|i: int| 0 <= i < name.len() implies ascii_lower(#[trigger] name[i]) == name[i] by {}
    assert(lowercased(t) =~= name);
}

/// Every HTML void element name, in any ASCII case, is a void tag.
pub proof fn law_void_element_names(t: Seq<char>)
    requires
        names_void_element(t),
    ensures
        is_void(t),
{
    reveal_strlit("area");
    reveal_strlit("base");
    reveal_strlit("br");
    reveal_strlit("col");
    reveal_strlit("embed");
    reveal_strlit("hr");
    reveal_strlit("img");
    reveal_strlit("input");
    reveal_strlit("link");
    reveal_strlit("meta");
    reveal_strlit("param");
    reveal_strlit("source");
    reveal_strlit("track");
    reveal_strlit("wbr");
    let names = void_element_names();
    let k = choose|k: int| 0 <= k < names.len() && eq_ignore_ascii_case(t, #[trigger] names[k]);
    assert(0 <= k < names.len() && eq_ignore_ascii_case(t, names[k])) by {
        if eq_ignore_ascii_case(t, "area"@) { assert(names[0] == "area"@); }
        else if eq_ignore_ascii_case(t, "base"@) { assert(names[1] == "base"@); }
        else if eq_ignore_ascii_case(t, "br"@) { assert(names[2] == "br"@); }
        else if eq_ignore_ascii_case(t, "col"@) { assert(names[3] == "col"@); }
        else if eq_ignore_ascii_case(t, "embed"@) { assert(names[4] == "embed"@); }
        else if eq_ignore_ascii_case(t, "hr"@) { assert(names[5] == "hr"@); }
        else if eq_ignore_ascii_case(t, "img"@) { assert(names[6] == "img"@); }
        else if eq_ignore_ascii_case(t, "input"@) { assert(names[7] == "input"@); }
        else if eq_ignore_ascii_case(t, "link"@) { assert(names[8] == "link"@); }
        else if eq_ignore_ascii_case(t, "meta"@) { assert(names[9] == "meta"@); }
        else if eq_ignore_ascii_case(t, "param"@) { assert(names[10] == "param"@); }
        else if eq_ignore_ascii_case(t, "source"@) { assert(names[11] == "source"@); }
        else if eq_ignore_ascii_case(t, "track"@) { assert(names[12] == "track"@); }
        else { assert(names[13] == "wbr"@); }
    }
    lemma_lowercased_to(t, names[k]);
}

pub fn is_void_element(tag: &str) -> (r: bool)
    ensures
        r == is_void(tag@),
{
    let lower_string = to_lowercase(tag);
    let lower = chars_of(lower_string.as_str());
    assert(lower@ =~= lowercased(tag@));
    let names = vec![
        "area", "base", "br", "col", "embed", "hr", "img", "input", "link", "meta", "param",
        "source", "track", "wbr",
    ];
    let ghost views = names@.map_values(|n: &str| n@);
    assert(views =~= void_element_names());
    let mut i: usize = 0;
    while i < names.len()
        invariant
            i <= names.len(),
            names.len() == 14,
            views == names@.map_values(|n: &str| n@),
            views == void_element_names(),
            lower@ == lowercased(tag@),
            forall|j: int| 0 <= j < i ==> views[j] != lower@,
        decreases names.len() - i,
    {
        let candidate = chars_of(names[i]);
        if chars_eq(&candidate, &lower) {
            assert(views[i as int] == lower@);
            return true;
        }
        i += 1;
    }
    false
}

/// The closing tag `</tag>`.
pub open spec fn close_tag(tag: Seq<char>) -> Seq<char> {
    seq!['<', '/'] + tag + seq!['>']
}

/// How many bytes past character `start` the first closing tag `</tag>`
/// ends, searching the lower-cased rest of the input for the lower-cased
/// closing tag: the bytes of the lower-cased text before the match, then
/// the bytes of the closing tag as written.
pub open spec fn close_skip(h: Seq<char>, start: int, tag: Seq<char>) -> Option<int> {
    let low = unicode_lowercase(h.subrange(start, h.len() as int));
    match find_from(low, unicode_lowercase(close_tag(tag)), 0) {
        Some(p) => Some(utf8_len(low.subrange(0, p)) + utf8_len(close_tag(tag))),
        None => None,
    }
}

/// How many bytes past character `start` a skipped element ends: through
/// its closing tag when there is one, else through the next `>`.
pub open spec fn tag_end(h: Seq<char>, start: int, tag: Seq<char>) -> Option<int> {
    match close_skip(h, start, tag) {
        Some(d) => Some(d),
        None => {
            let rest = h.subrange(start, h.len() as int);
            match find_from(rest, seq!['>'], 0) {
                Some(p) => Some(utf8_len(rest.subrange(0, p)) + 1),
                None => None,
            }
        },
    }
}

/// The character of `h` at which one arrives going `d` bytes forward from
/// character `i`, when those bytes end on a character boundary of `h`
/// (its end included).
pub open spec fn index_after_bytes(h: Seq<char>, i: int, d: int) -> Option<int>
    decreases h.len() - i,
{
    if d == 0 {
        Some(i)
    } else if d < 0 || i < 0 || i >= h.len() {
        None
    } else {
        index_after_bytes(h, i + 1, d - utf8_width(h[i]))
    }
}

/// Going `d` bytes forward from character `i` ends inside a character of
/// `h`, so that slicing the text there fails.
pub open spec fn splits_char(h: Seq<char>, i: int, d: int) -> bool {
    index_after_bytes(h, i, d) is None && d <= utf8_len(h.subrange(i, h.len() as int))
}

pub proof fn lemma_index_after_bytes(h: Seq<char>, i: int, d: int)
    requires
        0 <= i <= h.len(),
    ensures
        index_after_bytes(h, i, d) matches Some(e) ==> i <= e <= h.len(),
    decreases h.len() - i,
{
    if d != 0 && d >= 0 && i < h.len() {
        lemma_index_after_bytes(h, i + 1, d - utf8_width(h[i]));
    }
}

/// Where going some bytes forward ends.
enum ByteSkip {
    Lands(usize),
    PastEnd,
    SplitsChar,
}

/// Goes `d` bytes forward from character `i` of `h`.
fn skip_bytes(h: &Vec<char>, i: usize, d: u128) -> (r: ByteSkip)
    requires
        i <= h.len(),
    ensures
        r matches ByteSkip::Lands(e) ==> index_after_bytes(h@, i as int, d as int) == Some(e as int),
        r is PastEnd ==> index_after_bytes(h@, i as int, d as int) is None && !splits_char(h@, i as int, d as int),
        r is SplitsChar ==> splits_char(h@, i as int, d as int),
{
    let len = h.len();
    let mut k: usize = i;
    let mut rem: u128 = d;
    while rem > 0 && k < len
        invariant
            i <= k <= len == h.len(),
            index_after_bytes(h@, i as int, d as int) == index_after_bytes(h@, k as int, rem as int),
            utf8_len(h@.subrange(i as int, len as int)) - d == utf8_len(h@.subrange(k as int, len as int)) - rem,
        decreases len - k,
    {
        let w = utf8_width_of(h[k]);
        proof {
            lemma_utf8_len_front(h@, k as int);
            lemma_utf8_len_bounds(h@.subrange(k + 1, len as int));
        }
        if w > rem {
            proof {
                assert(index_after_bytes(h@, k as int + 1, rem - w) is None);
            }
            return ByteSkip::SplitsChar;
        }
        rem = rem - w;
        k += 1;
    }
    if rem == 0 {
        ByteSkip::Lands(k)
    } else {
        proof {
            assert(h@.subrange(len as int, len as int) =~= Seq::<char>::empty());
        }
        ByteSkip::PastEnd
    }
}

/// The characters `</tag>`.
fn close_tag_chars(tag: &Vec<char>) -> (r: Vec<char>)
    ensures
        r@ == close_tag(tag@),
{
    let mut r: Vec<char> = Vec::new();
    r.push('<');
    r.push('/');
    let mut i: usize = 0;
    while i < tag.len()
        invariant
            i <= tag.len(),
            r@ == seq!['<', '/'] + tag@.subrange(0, i as int),
        decreases tag.len() - i,
    {
        r.push(tag[i]);
        i += 1;
        assert(r@ =~= seq!['<', '/'] + tag@.subrange(0, i as int));
    }
    r.push('>');
    assert(r@ =~= close_tag(tag@));
    r
}

/// Unicode lower-casing of the characters `s[lo..hi]`.
fn lowercase_chars(s: &Vec<char>, lo: usize, hi: usize) -> (r: Vec<char>)
    requires
        lo <= hi <= s.len(),
    ensures
        r@ == unicode_lowercase(s@.subrange(lo as int, hi as int)),
{
    let st = string_of(s, lo, hi);
    let low = to_lowercase(st.as_str());
    chars_of(low.as_str())
}

/// Bytes from `start` through the first closing tag `</tag>` (see
/// `close_skip`).
fn find_close_skip(h: &Vec<char>, start: usize, tag: &Vec<char>) -> (r: Option<u128>)
    requires
        start <= h.len(),
    ensures
        r matches Some(d) ==> close_skip(h@, start as int, tag@) == Some(d as int),
        r is None ==> close_skip(h@, start as int, tag@) is None,
{
    let close = close_tag_chars(tag);
    let close_lower = lowercase_chars(&close, 0, close.len());
    let lower = lowercase_chars(h, start, h.len());
    assert(close@.subrange(0, close@.len() as int) =~= close@);
    match find(&lower, &close_lower, 0) {
        Some(p) => {
            let before = utf8_len_of(&lower, 0, p);
            let own = utf8_len_of(&close, 0, close.len());
            Some(before + own)
        },
        None => None,
    }
}

/// Bytes from `start` through the end of a skipped element (see `tag_end`).
fn find_tag_end(h: &Vec<char>, start: usize, tag: &Vec<char>) -> (r: Option<u128>)
    requires
        start <= h.len(),
    ensures
        r matches Some(d) ==> tag_end(h@, start as int, tag@) == Some(d as int),
        r is None ==> tag_end(h@, start as int, tag@) is None,
{
    match find_close_skip(h, start, tag) {
        Some(d) => Some(d),
        None => {
            let rest = crate::text::sub_chars(h, start, h.len());
            let gt = vec!['>'];
            assert(gt@ =~= seq!['>']);
            match find(&rest, &gt, 0) {
                Some(p) => {
                    let before = utf8_len_of(&rest, 0, p);
                    Some(before + 1)
                },
                None => None,
            }
        },
    }
}

/// A parsed piece of HTML: an element with its children, or text.
pub enum Parsed {
    Element { tag: Seq<char>, attrs: Map<Seq<char>, Seq<char>>, kids: Seq<Parsed> },
    Text { text: Seq<char> },
}

/// The pieces that parsing `h` from `pos` yields, up to the first closing
/// tag or the end of the input. A comment or a `<!...>` declaration is
/// skipped; an element's children are parsed from just after its start
/// tag, and the parse then resumes where the first `</tag>` found in the
/// lower-cased rest ends, counted in bytes (`close_skip`), or stops where
/// there is none or that count runs past the input; a `<script>` element
/// is skipped whole, likewise counted in bytes; text between tags is
/// trimmed and dropped when empty.
pub open spec fn parse_items(h: Seq<char>, pos: int) -> Seq<Parsed>
    decreases h.len() + 1 - pos,
{
    if pos < 0 || pos >= h.len() {
        Seq::empty()
    } else if h[pos] == '<' {
        if pos + 1 < h.len() && h[pos + 1] == '/' {
            Seq::empty()
        } else if occurs_at(h, seq!['<', '!', '-', '-'], pos) && find_from(h, seq!['-', '-', '>'], pos) is Some {
            let e = find_from(h, seq!['-', '-', '>'], pos)->0 + 3;
            if pos < e <= h.len() {
                parse_items(h, e)
            } else {
                Seq::empty()
            }
        } else if occurs_at(h, seq!['<', '!'], pos) {
            let e = scan_until(h, pos, in_set(seq!['>'])) + 1;
            if pos < e <= h.len() {
                parse_items(h, e)
            } else {
                Seq::empty()
            }
        } else {
            let te = scan_until(h, pos + 1, in_set(tag_name_stops()));
            let tag = h.subrange(pos + 1, te);
            if eq_ignore_ascii_case(tag, seq!['s', 'c', 'r', 'i', 'p', 't']) && tag_end(h, te, tag) is Some {
                match index_after_bytes(h, te, tag_end(h, te, tag)->0) {
                    Some(e) => if pos < e <= h.len() {
                        parse_items(h, e)
                    } else {
                        Seq::empty()
                    },
                    None => Seq::empty(),
                }
            } else {
                let (attrs, ae) = attrs_from(h, te, Map::empty());
                let self_closing = ae < h.len() && h[ae] == '/';
                let p1 = if self_closing {
                    ae + 1
                } else {
                    ae
                };
                let p2 = if p1 < h.len() && h[p1] == '>' {
                    p1 + 1
                } else {
                    p1
                };
                if !self_closing && !is_void(tag) {
                    let kids = if pos < p2 <= h.len() {
                        parse_items(h, p2)
                    } else {
                        Seq::empty()
                    };
                    let el = Parsed::Element { tag, attrs, kids };
                    match close_skip(h, p2, tag) {
                        Some(d) => seq![el] + match index_after_bytes(h, p2, d) {
                            Some(e) => if pos < e <= h.len() {
                                parse_items(h, e)
                            } else {
                                Seq::empty()
                            },
                            None => Seq::empty(),
                        },
                        None => seq![el],
                    }
                } else {
                    seq![Parsed::Element { tag, attrs, kids: Seq::empty() }] + if pos < p2 <= h.len() {
                        parse_items(h, p2)
                    } else {
                        Seq::empty()
                    }
                }
            }
        }
    } else {
        let te = scan_until(h, pos, in_set(seq!['<']));
        let t = trim(h.subrange(pos, te));
        (if t.len() > 0 {
            seq![Parsed::Text { text: t }]
        } else {
            Seq::empty()
        }) + if pos < te <= h.len() {
            parse_items(h, te)
        } else {
            Seq::empty()
        }
    }
}

/// Parsing `h` from `pos` never resumes inside a character: every byte
/// count by which it skips an element (`tag_end`, `close_skip`) either
/// ends on a character boundary or runs past the end of the input. Where
/// it would resume inside a character, slicing the text there fails.
pub open spec fn parse_ok(h: Seq<char>, pos: int) -> bool
    decreases h.len() + 1 - pos,
{
    if pos < 0 || pos >= h.len() {
        true
    } else if h[pos] == '<' {
        if pos + 1 < h.len() && h[pos + 1] == '/' {
            true
        } else if occurs_at(h, seq!['<', '!', '-', '-'], pos) && find_from(h, seq!['-', '-', '>'], pos) is Some {
            let e = find_from(h, seq!['-', '-', '>'], pos)->0 + 3;
            if pos < e <= h.len() {
                parse_ok(h, e)
            } else {
                true
            }
        } else if occurs_at(h, seq!['<', '!'], pos) {
            let e = scan_until(h, pos, in_set(seq!['>'])) + 1;
            if pos < e <= h.len() {
                parse_ok(h, e)
            } else {
                true
            }
        } else {
            let te = scan_until(h, pos + 1, in_set(tag_name_stops()));
            let tag = h.subrange(pos + 1, te);
            if eq_ignore_ascii_case(tag, seq!['s', 'c', 'r', 'i', 'p', 't']) && tag_end(h, te, tag) is Some {
                let d = tag_end(h, te, tag)->0;
                !splits_char(h, te, d) && match index_after_bytes(h, te, d) {
                    Some(e) => if pos < e <= h.len() {
                        parse_ok(h, e)
                    } else {
                        true
                    },
                    None => true,
                }
            } else {
                let ae = attrs_from(h, te, Map::empty()).1;
                let self_closing = ae < h.len() && h[ae] == '/';
                let p1 = if self_closing {
                    ae + 1
                } else {
                    ae
                };
                let p2 = if p1 < h.len() && h[p1] == '>' {
                    p1 + 1
                } else {
                    p1
                };
                let rest_ok = if pos < p2 <= h.len() {
                    parse_ok(h, p2)
                } else {
                    true
                };
                if !self_closing && !is_void(tag) {
                    rest_ok && match close_skip(h, p2, tag) {
                        Some(d) => !splits_char(h, p2, d) && match index_after_bytes(h, p2, d) {
                            Some(e) => if pos < e <= h.len() {
                                parse_ok(h, e)
                            } else {
                                true
                            },
                            None => true,
                        },
                        None => true,
                    }
                } else {
                    rest_ok
                }
            }
        }
    } else {
        let te = scan_until(h, pos, in_set(seq!['<']));
        if pos < te <= h.len() {
            parse_ok(h, te)
        } else {
            true
        }
    }
}

/// No void element among the pieces has children.
pub open spec fn void_childless(ps: Seq<Parsed>) -> bool {
    forall|k: int| 0 <= k < ps.len() && (#[trigger] ps[k]) is Element && is_void(ps[k]->tag) ==> ps[k]->kids.len() == 0
}

proof fn lemma_void_childless_concat(a: Seq<Parsed>, b: Seq<Parsed>)
    requires
        void_childless(a),
        void_childless(b),
    ensures
        void_childless(a + b),
{
    assert forall|k: int| 0 <= k < (a + b).len() && (#[trigger] (a + b)[k]) is Element && is_void((a + b)[k]->tag) implies (a + b)[k]->kids.len() == 0 by {
        if k >= a.len() {
            assert((a + b)[k] == b[k - a.len()]);
        }
    }
}

proof fn lemma_void_childless(h: Seq<char>, pos: int)
    ensures
        void_childless(parse_items(h, pos)),
    decreases h.len() + 1 - pos,
{
    let ps = parse_items(h, pos);
    if pos < 0 || pos >= h.len() {
    } else if h[pos] == '<' {
        if pos + 1 < h.len() && h[pos + 1] == '/' {
        } else if occurs_at(h, seq!['<', '!', '-', '-'], pos) && find_from(h, seq!['-', '-', '>'], pos) is Some {
            let e = find_from(h, seq!['-', '-', '>'], pos)->0 + 3;
            if pos < e <= h.len() {
                lemma_void_childless(h, e);
            }
        } else if occurs_at(h, seq!['<', '!'], pos) {
            let e = scan_until(h, pos, in_set(seq!['>'])) + 1;
            if pos < e <= h.len() {
                lemma_void_childless(h, e);
            }
        } else {
            let te = scan_until(h, pos + 1, in_set(tag_name_stops()));
            let tag = h.subrange(pos + 1, te);
            if eq_ignore_ascii_case(tag, seq!['s', 'c', 'r', 'i', 'p', 't']) && tag_end(h, te, tag) is Some {
                match index_after_bytes(h, te, tag_end(h, te, tag)->0) {
                    Some(e) => if pos < e <= h.len() {
                        lemma_void_childless(h, e);
                    },
                    None => {},
                }
            } else {
                let (attrs, ae) = attrs_from(h, te, Map::empty());
                let self_closing = ae < h.len() && h[ae] == '/';
                let p1 = if self_closing { ae + 1 } else { ae };
                let p2 = if p1 < h.len() && h[p1] == '>' { p1 + 1 } else { p1 };
                let kids = if pos < p2 <= h.len() { parse_items(h, p2) } else { Seq::empty() };
                let el = Parsed::Element { tag, attrs, kids };
                if !self_closing && !is_void(tag) {
                    let rest = match close_skip(h, p2, tag) {
                        Some(d) => match index_after_bytes(h, p2, d) {
                            Some(e) => if pos < e <= h.len() {
                                lemma_void_childless(h, e);
                                parse_items(h, e)
                            } else {
                                Seq::empty()
                            },
                            None => Seq::empty(),
                        },
                        None => Seq::empty(),
                    };
                    assert(ps == seq![el] + rest);
                    lemma_void_childless_concat(seq![el], rest);
                } else {
                    let leaf = Parsed::Element { tag, attrs, kids: Seq::empty() };
                    let rest = if pos < p2 <= h.len() {
                        lemma_void_childless(h, p2);
                        parse_items(h, p2)
                    } else {
                        Seq::empty()
                    };
                    assert(ps == seq![leaf] + rest);
                    lemma_void_childless_concat(seq![leaf], rest);
                }
            }
        }
    } else {
        let te = scan_until(h, pos, in_set(seq!['<']));
        let t = trim(h.subrange(pos, te));
        let head: Seq<Parsed> = if t.len() > 0 { seq![Parsed::Text { text: t }] } else { Seq::empty() };
        let rest = if pos < te <= h.len() {
            lemma_void_childless(h, te);
            parse_items(h, te)
        } else {
            Seq::empty()
        };
        assert(ps == head + rest);
        lemma_void_childless_concat(head, rest);
    }
}

/// A void element never gets children: wherever parsing starts, each
/// element it yields whose tag names an HTML void element (ignoring ASCII
/// case) has no children, so what follows its start tag becomes its
/// sibling.
pub proof fn law_void_elements_have_no_children(h: Seq<char>, pos: int)
    ensures
        forall|k: int|
            0 <= k < parse_items(h, pos).len() && (#[trigger] parse_items(h, pos)[k]) is Element && names_void_element(
                parse_items(h, pos)[k]->tag,
            ) ==> parse_items(h, pos)[k]->kids.len() == 0,
{
    lemma_void_childless(h, pos);
    let ps = parse_items(h, pos);
    assert forall|k: int| 0 <= k < ps.len() && (#[trigger] ps[k]) is Element && names_void_element(ps[k]->tag) implies ps[k]->kids.len() == 0 by {
        law_void_element_names(ps[k]->tag);
    }
}

/// What the subtree at node `x` holds, read as parse pieces.
pub open spec fn subtree(nodes: Seq<DomNode>, x: int) -> Parsed
    decreases nodes.len() - x, 1int, 0int,
{
    if 0 <= x < nodes.len() {
        match nodes[x].kind {
            DomNodeKind::Element { tag, attributes, .. } => Parsed::Element {
                tag: tag@,
                attrs: attributes@,
                kids: forest(nodes, x, 0),
            },
            DomNodeKind::Text(t) => Parsed::Text { text: t@ },
            _ => Parsed::Text { text: Seq::empty() },
        }
    } else {
        Parsed::Text { text: Seq::empty() }
    }
}

/// The subtrees of the children of `x` from the `k`-th on.
pub open spec fn forest(nodes: Seq<DomNode>, x: int, k: int) -> Seq<Parsed>
    decreases nodes.len() - x, 0int, nodes[x].children@.len() - k,
{
    if 0 <= x < nodes.len() && 0 <= k < nodes[x].children@.len() {
        let c = child(nodes, x, k);
        seq![
            if x < c < nodes.len() {
                subtree(nodes, c)
            } else {
                Parsed::Text { text: Seq::empty() }
            },
        ] + forest(nodes, x, k + 1)
    } else {
        Seq::empty()
    }
}


/// The consecutive ids `a, a + 1, .., b - 1`.
pub open spec fn id_range(a: int, b: int) -> Seq<int> {
    Seq::new((b - a) as nat, |i: int| a + i)
}

/// A node the parser makes: an element in the XHTML namespace, or a text
/// node without children whose text is not empty and neither starts nor
/// ends with whitespace.
pub open spec fn parsed_kind(n: DomNode) -> bool {
    match n.kind {
        DomNodeKind::Element { namespace, .. } => namespace@ == xhtml_ns(),
        DomNodeKind::Text(t) => t@.len() > 0 && !is_ws(t@[0]) && !is_ws(t@.last()) && n.children@.len() == 0,
        _ => false,
    }
}

/// Changes outside `[x, a.len())` leave the subtree at `x`, and its
/// pre-order, as they were.
pub proof fn lemma_subtree_frame(a: Seq<DomNode>, b: Seq<DomNode>, x: int)
    requires
        nodes_wf(a),
        nodes_wf(b),
        0 <= x < a.len() <= b.len(),
        forall|y: int| x <= y < a.len() ==> b[y] == a[y],
    ensures
        subtree(b, x) == subtree(a, x),
        preorder(b, x) == preorder(a, x),
    decreases a.len() - x, 1int, 0int,
{
    lemma_forest_frame(a, b, x, 0);
}

pub proof fn lemma_forest_frame(a: Seq<DomNode>, b: Seq<DomNode>, x: int, k: int)
    requires
        nodes_wf(a),
        nodes_wf(b),
        0 <= x < a.len() <= b.len(),
        0 <= k,
        forall|y: int| x <= y < a.len() ==> b[y] == a[y],
    ensures
        forest(b, x, k) == forest(a, x, k),
        preorder_kids(b, x, k) == preorder_kids(a, x, k),
    decreases a.len() - x, 0int, a[x].children@.len() - k,
{
    if k < a[x].children@.len() {
        let c = child(a, x, k);
        assert(child(b, x, k) == c);
        assert(x < c < a.len());
        lemma_subtree_frame(a, b, c);
        lemma_forest_frame(a, b, x, k + 1);
    }
}

/// Appending child `c` to node `p` appends its subtree to `p`'s forest.
pub proof fn lemma_forest_snoc(a: Seq<DomNode>, b: Seq<DomNode>, p: int, k: int, c: usize)
    requires
        nodes_wf(a),
        nodes_wf(b),
        0 <= p < a.len() <= b.len(),
        b[p].children@ == a[p].children@.push(DomNodeId(c)),
        forall|y: int| p < y < a.len() ==> b[y] == a[y],
        0 <= k <= a[p].children@.len(),
    ensures
        forest(b, p, k) == forest(a, p, k) + seq![subtree(b, c as int)],
        preorder_kids(b, p, k) == preorder_kids(a, p, k) + preorder(b, c as int),
    decreases a[p].children@.len() - k,
{
    if k == a[p].children@.len() {
        assert(child(b, p, k) == c as int);
        assert(p < c < b.len());
        assert(forest(b, p, k + 1) == Seq::<Parsed>::empty());
        assert(forest(a, p, k) == Seq::<Parsed>::empty());
        assert(forest(b, p, k) =~= forest(a, p, k) + seq![subtree(b, c as int)]);
        assert(preorder_kids(b, p, k + 1) == Seq::<int>::empty());
        assert(preorder_kids(a, p, k) == Seq::<int>::empty());
        assert(preorder_kids(b, p, k) =~= preorder_kids(a, p, k) + preorder(b, c as int));
    } else {
        let d = child(a, p, k);
        assert(child(b, p, k) == d);
        assert(p < d < a.len());
        lemma_subtree_frame(a, b, d);
        lemma_forest_snoc(a, b, p, k + 1, c);
        assert(forest(b, p, k) =~= forest(a, p, k) + seq![subtree(b, c as int)]);
        assert(preorder_kids(b, p, k) =~= preorder_kids(a, p, k) + preorder(b, c as int));
    }
}

/// A node with no children is its own whole pre-order.
pub proof fn lemma_preorder_leaf(a: Seq<DomNode>, x: int)
    requires
        0 <= x < a.len(),
        a[x].children@.len() == 0,
    ensures
        preorder(a, x) == seq![x],
{
    assert(preorder_kids(a, x, 0) == Seq::<int>::empty());
    assert(preorder(a, x) =~= seq![x]);
}

/// A node with no children has an empty forest.
pub proof fn lemma_forest_empty(a: Seq<DomNode>, x: int, k: int)
    requires
        0 <= x < a.len(),
        k == a[x].children@.len(),
    ensures
        forest(a, x, k) == Seq::<Parsed>::empty(),
{
}


/// What a node holds apart from its links: which kind it is, and its tag,
/// attributes and namespace, or its text.
pub open spec fn kind_view(k: DomNodeKind) -> (int, Seq<char>, Map<Seq<char>, Seq<char>>, Seq<char>) {
    match k {
        DomNodeKind::Document => (0, Seq::empty(), Map::empty(), Seq::empty()),
        DomNodeKind::Element { tag, attributes, namespace } => (1, tag@, attributes@, namespace@),
        DomNodeKind::Text(t) => (2, t@, Map::empty(), Seq::empty()),
        DomNodeKind::Comment(t) => (3, t@, Map::empty(), Seq::empty()),
    }
}

/// Two nodes hold the same and list the same children.
pub open spec fn same_node(m: DomNode, n: DomNode) -> bool {
    kind_view(m.kind) == kind_view(n.kind) && m.children@ == n.children@
}

/// Every node but the root is one the parser makes.
pub open spec fn all_parsed_kinds(a: Seq<DomNode>) -> bool {
    forall|i: int| 1 <= i < a.len() ==> parsed_kind(#[trigger] a[i])
}

/// Two arenas numbered in pre-order whose subtrees at `x` read the same
/// hold the same nodes over that subtree.
proof fn lemma_subtree_agree(a: Seq<DomNode>, b: Seq<DomNode>, x: int)
    requires
        nodes_wf(a),
        nodes_wf(b),
        all_parsed_kinds(a),
        all_parsed_kinds(b),
        1 <= x < a.len(),
        1 <= x < b.len(),
        subtree(a, x) == subtree(b, x),
        preorder(a, x) == id_range(x, x + preorder(a, x).len()),
        preorder(b, x) == id_range(x, x + preorder(b, x).len()),
    ensures
        preorder(a, x).len() == preorder(b, x).len(),
        forall|y: int| x <= y < x + preorder(a, x).len() ==> same_node(#[trigger] a[y], b[y]),
    decreases a.len() - x, 1int, 0int,
{
    let pa = preorder_kids(a, x, 0);
    let pb = preorder_kids(b, x, 0);
    assert(preorder(a, x) == seq![x] + pa);
    assert(preorder(b, x) == seq![x] + pb);
    assert(pa =~= id_range(x + 1, x + 1 + pa.len())) by {
        assert forall|i: int| 0 <= i < pa.len() implies pa[i] == x + 1 + i by {
            assert(pa[i] == preorder(a, x)[i + 1]);
        }
    }
    assert(pb =~= id_range(x + 1, x + 1 + pb.len())) by {
        assert forall|i: int| 0 <= i < pb.len() implies pb[i] == x + 1 + i by {
            assert(pb[i] == preorder(b, x)[i + 1]);
        }
    }
    assert(parsed_kind(a[x]));
    assert(parsed_kind(b[x]));
    match a[x].kind {
        DomNodeKind::Element { .. } => {
            assert(b[x].kind is Element);
            lemma_forest_agree(a, b, x, 0, x + 1);
            assert(a[x].children@.subrange(0, a[x].children@.len() as int) =~= a[x].children@);
            assert(b[x].children@.subrange(0, b[x].children@.len() as int) =~= b[x].children@);
        },
        DomNodeKind::Text(_) => {
            assert(b[x].kind is Text);
            assert(pa == Seq::<int>::empty());
            assert(pb == Seq::<int>::empty());
            assert(a[x].children@ =~= b[x].children@);
        },
        _ => {},
    }
}

proof fn lemma_forest_agree(a: Seq<DomNode>, b: Seq<DomNode>, x: int, k: int, s: int)
    requires
        nodes_wf(a),
        nodes_wf(b),
        all_parsed_kinds(a),
        all_parsed_kinds(b),
        1 <= x < a.len(),
        1 <= x < b.len(),
        0 <= k <= a[x].children@.len(),
        0 <= k <= b[x].children@.len(),
        forest(a, x, k) == forest(b, x, k),
        preorder_kids(a, x, k) == id_range(s, s + preorder_kids(a, x, k).len()),
        preorder_kids(b, x, k) == id_range(s, s + preorder_kids(b, x, k).len()),
    ensures
        preorder_kids(a, x, k).len() == preorder_kids(b, x, k).len(),
        a[x].children@.subrange(k, a[x].children@.len() as int) == b[x].children@.subrange(k, b[x].children@.len() as int),
        forall|y: int| s <= y < s + preorder_kids(a, x, k).len() ==> same_node(#[trigger] a[y], b[y]),
    decreases a.len() - x, 0int, a[x].children@.len() - k,
{
    let na = a[x].children@.len() as int;
    let nb = b[x].children@.len() as int;
    if k < na {
        assert(forest(a, x, k).len() > 0);
        assert(k < nb);
        let ca = child(a, x, k);
        let cb = child(b, x, k);
        assert(x < ca < a.len());
        assert(x < cb < b.len());
        let qa = preorder(a, ca);
        let qb = preorder(b, cb);
        let ra = preorder_kids(a, x, k + 1);
        let rb = preorder_kids(b, x, k + 1);
        assert(preorder_kids(a, x, k) == qa + ra);
        assert(preorder_kids(b, x, k) == qb + rb);
        assert(qa == seq![ca] + preorder_kids(a, ca, 0));
        assert(qb == seq![cb] + preorder_kids(b, cb, 0));
        assert(preorder_kids(a, x, k)[0] == ca);
        assert(preorder_kids(b, x, k)[0] == cb);
        assert(ca == s);
        assert(cb == s);
        assert(forest(a, x, k)[0] == subtree(a, s));
        assert(forest(b, x, k)[0] == subtree(b, s));
        assert(qa =~= id_range(s, s + qa.len())) by {
            assert forall|i: int| 0 <= i < qa.len() implies qa[i] == s + i by {
                assert(qa[i] == preorder_kids(a, x, k)[i]);
            }
        }
        assert(qb =~= id_range(s, s + qb.len())) by {
            assert forall|i: int| 0 <= i < qb.len() implies qb[i] == s + i by {
                assert(qb[i] == preorder_kids(b, x, k)[i]);
            }
        }
        lemma_subtree_agree(a, b, s);
        let m = qa.len() as int;
        assert(ra =~= id_range(s + m, s + m + ra.len())) by {
            assert forall|i: int| 0 <= i < ra.len() implies ra[i] == s + m + i by {
                assert(ra[i] == preorder_kids(a, x, k)[m + i]);
            }
        }
        assert(rb =~= id_range(s + m, s + m + rb.len())) by {
            assert forall|i: int| 0 <= i < rb.len() implies rb[i] == s + m + i by {
                assert(rb[i] == preorder_kids(b, x, k)[m + i]);
            }
        }
        assert(forest(a, x, k + 1) =~= forest(a, x, k).drop_first());
        assert(forest(b, x, k + 1) =~= forest(b, x, k).drop_first());
        lemma_forest_agree(a, b, x, k + 1, s + m);
        assert(a[x].children@.subrange(k, na) =~= seq![a[x].children@[k]] + a[x].children@.subrange(k + 1, na));
        assert(b[x].children@.subrange(k, nb) =~= seq![b[x].children@[k]] + b[x].children@.subrange(k + 1, nb));
        assert(a[x].children@[k] == b[x].children@[k]);
        assert forall|y: int| s <= y < s + preorder_kids(a, x, k).len() implies same_node(#[trigger] a[y], b[y]) by {
            if y >= s + m {
            }
        }
    } else {
        assert(forest(a, x, k) == Seq::<Parsed>::empty());
        if k < nb {
            assert(forest(b, x, k).len() > 0);
        }
        assert(preorder_kids(a, x, k) == Seq::<int>::empty());
        assert(preorder_kids(b, x, k) == Seq::<int>::empty());
        assert(a[x].children@.subrange(k, na) =~= Seq::<DomNodeId>::empty());
        assert(b[x].children@.subrange(k, nb) =~= Seq::<DomNodeId>::empty());
    }
}

/// Every `<` of `h` has a `>` somewhere after it.
pub open spec fn lt_closed(h: Seq<char>) -> bool {
    forall|i: int| 0 <= i < h.len() && h[i] == '<' ==> exists|j: int| i < j < h.len() && #[trigger] h[j] == '>'
}

/// An element named `script`, compared ignoring ASCII case.
pub open spec fn is_script_node(n: DomNode) -> bool {
    match n.kind {
        DomNodeKind::Element { tag, .. } => eq_ignore_ascii_case(tag@, seq!['s', 'c', 'r', 'i', 'p', 't']),
        _ => false,
    }
}

/// When a `>` follows the `<` of a start tag, the rest after its name holds
/// one, so a skipped element always finds its end.
proof fn lemma_gt_after_tag_name(h: Seq<char>, pos: int)
    requires
        0 <= pos < h.len(),
        h[pos] == '<',
        lt_closed(h),
    ensures
        tag_end(h, scan_until(h, pos + 1, in_set(tag_name_stops())), h.subrange(pos + 1, scan_until(h, pos + 1, in_set(tag_name_stops())))) is Some,
{
    let te = scan_until(h, pos + 1, in_set(tag_name_stops()));
    lemma_scan_until(h, pos + 1, in_set(tag_name_stops()));
    let j = choose|j: int| pos < j < h.len() && #[trigger] h[j] == '>';
    if j < te {
        assert(tag_name_stops().contains(h[j])) by {
            assert(tag_name_stops()[1] == '>');
        }
        assert(false);
    }
    let rest = h.subrange(te, h.len() as int);
    assert(rest.subrange(j - te, j - te + 1) =~= seq!['>']);
    assert(occurs_at(rest, seq!['>'], j - te));
    lemma_find_from(rest, seq!['>'], 0);
}

/// The arena is what parsing `h` gives: the document root has one `html`
/// element, whose subtree reads as the pieces parsed from `h`; the nodes
/// are numbered in pre-order, and every node but the root is one the
/// parser makes.
pub open spec fn parsed_from(nodes: Seq<DomNode>, h: Seq<char>) -> bool {
    &&& nodes_wf(nodes)
    &&& nodes.len() >= 2
    &&& nodes[0].kind is Document
    &&& nodes[0].children@ == seq![DomNodeId(1)]
    &&& subtree(nodes, 1) == (Parsed::Element {
        tag: seq!['h', 't', 'm', 'l'],
        attrs: Map::empty(),
        kids: parse_items(h, 0),
    })
    &&& preorder(nodes, 0) == id_range(0, nodes.len() as int)
    &&& all_parsed_kinds(nodes)
}

/// In an arena that parsing gives, the `html` element's subtree holds
/// every node after the root, in order.
proof fn lemma_html_preorder(n: Seq<DomNode>, h: Seq<char>)
    requires
        parsed_from(n, h),
    ensures
        preorder(n, 1) == id_range(1, n.len() as int),
{
    let whole = preorder(n, 0);
    let kids = preorder_kids(n, 0, 0);
    let sub = preorder(n, 1);
    assert(child(n, 0, 0) == 1);
    assert(preorder_kids(n, 0, 1) == Seq::<int>::empty());
    assert(kids == sub + preorder_kids(n, 0, 1));
    assert(kids =~= sub);
    assert(whole == seq![0] + kids);
    assert(whole.len() == n.len());
    assert(sub.len() == n.len() - 1);
    assert forall|i: int| 0 <= i < sub.len() implies sub[i] == 1 + i by {
        assert(sub[i] == whole[i + 1]);
        assert(whole[i + 1] == i + 1);
    }
    assert(sub =~= id_range(1, n.len() as int));
}

/// Parsing a text gives one tree: two arenas that are both what parsing
/// `h` gives have the same number of nodes, and each node has the same
/// kind (tag, attributes, namespace or text), children and parent in both.
pub proof fn law_parse_is_determined(a: Seq<DomNode>, b: Seq<DomNode>, h: Seq<char>)
    requires
        parsed_from(a, h),
        parsed_from(b, h),
    ensures
        a.len() == b.len(),
        forall|i: int| 0 <= i < a.len() ==> same_node(#[trigger] a[i], b[i]) && a[i].parent == b[i].parent,
{
    lemma_html_preorder(a, h);
    lemma_html_preorder(b, h);
    lemma_subtree_agree(a, b, 1);
    assert(same_node(a[0], b[0]));
    assert forall|i: int| 0 <= i < a.len() implies same_node(#[trigger] a[i], b[i]) && a[i].parent == b[i].parent by {
        if i > 0 {
            assert(same_node(a[i], b[i]));
            let q = a[i].parent->0;
            let p = q.0 as int;
            assert(a[p].children@.contains(DomNodeId(i as usize)));
            let kk = choose|kk: int| 0 <= kk < a[p].children@.len() && a[p].children@[kk] == DomNodeId(i as usize);
            assert(same_node(a[p], b[p]));
            assert(child(b, p, kk) == i);
        }
    }
}

/// From `a` to `b` the arena only grew below node `p`: every other earlier
/// node is unchanged, `p` keeps its id, kind and parent, and its child list
/// only grew at the end.
pub open spec fn grows_under(a: Seq<DomNode>, b: Seq<DomNode>, p: int) -> bool {
    &&& a.len() <= b.len()
    &&& 0 <= p < a.len()
    &&& forall|y: int| 0 <= y < a.len() && y != p ==> b[y] == a[y]
    &&& b[p].id == a[p].id
    &&& b[p].kind == a[p].kind
    &&& b[p].parent == a[p].parent
    &&& a[p].children@.len() <= b[p].children@.len()
    &&& b[p].children@.subrange(0, a[p].children@.len() as int) == a[p].children@
}

pub proof fn lemma_grows_under_trans(a: Seq<DomNode>, b: Seq<DomNode>, c: Seq<DomNode>, p: int)
    requires
        grows_under(a, b, p),
        grows_under(b, c, p),
    ensures
        grows_under(a, c, p),
{
    let n = a[p].children@.len() as int;
    assert(c[p].children@.subrange(0, n) =~= c[p].children@.subrange(0, b[p].children@.len() as int).subrange(0, n));
}

/// Appending one parser-made node, and children to a node before `lo`,
/// keeps every node from `lo` on parser-made (and not a `script` element,
/// when `closed` says so).
proof fn lemma_one_node_added(lo: int, nb: Seq<DomNode>, n1: Seq<DomNode>, p: int, closed: bool)
    requires
        0 <= p < lo <= nb.len(),
        n1.len() == nb.len() + 1,
        forall|i: int| 0 <= i < nb.len() && i != p ==> n1[i] == nb[i],
        forall|i: int| lo <= i < nb.len() ==> parsed_kind(#[trigger] nb[i]),
        closed ==> forall|i: int| lo <= i < nb.len() ==> !is_script_node(#[trigger] nb[i]),
        parsed_kind(n1[nb.len() as int]),
        closed ==> !is_script_node(n1[nb.len() as int]),
    ensures
        forall|i: int| lo <= i < n1.len() ==> parsed_kind(#[trigger] n1[i]),
        closed ==> forall|i: int| lo <= i < n1.len() ==> !is_script_node(#[trigger] n1[i]),
{
    assert forall|i: int| lo <= i < n1.len() implies parsed_kind(#[trigger] n1[i]) by {
        if i < nb.len() {
            assert(n1[i] == nb[i]);
        }
    }
    if closed {
        assert forall|i: int| lo <= i < n1.len() implies !is_script_node(#[trigger] n1[i]) by {
            if i < nb.len() {
                assert(n1[i] == nb[i]);
            }
        }
    }
}

/// Parses `h` from `start` and appends what it yields under `parent`.
#[verifier::rlimit(100)]
#[verifier::spinoff_prover]
fn parse_children(tree: &mut DomTree, parent: DomNodeId, h: &Vec<char>, start: usize) -> (ok: bool)
    requires
        old(tree).wf(),
        parent.0 < old(tree).nodes().len(),
        start <= h.len(),
        h.len() < usize::MAX,
    ensures
        final(tree).wf(),
        grows_under(old(tree).nodes(), final(tree).nodes(), parent.0 as int),
        ok == parse_ok(h@, start as int),
        ok ==> forest(final(tree).nodes(), parent.0 as int, old(tree).nodes()[parent.0 as int].children@.len() as int)
            == parse_items(h@, start as int),
        preorder_kids(final(tree).nodes(), parent.0 as int, old(tree).nodes()[parent.0 as int].children@.len() as int)
            == id_range(old(tree).nodes().len() as int, final(tree).nodes().len() as int),
        forall|i: int| old(tree).nodes().len() <= i < final(tree).nodes().len() ==> parsed_kind(#[trigger] final(tree).nodes()[i]),
        lt_closed(h@) ==> forall|i: int| old(tree).nodes().len() <= i < final(tree).nodes().len() ==> !is_script_node(#[trigger] final(tree).nodes()[i]),
    decreases h.len() - start,
{
    let ghost n0 = tree.nodes();
    let ghost p = parent.0 as int;
    let ghost oc = n0[p].children@.len() as int;
    let len = h.len();
    let mut pos: usize = start;
    let comment_open = vec!['<', '!', '-', '-'];
    let comment_close = vec!['-', '-', '>'];
    let decl_open = vec!['<', '!'];
    let gt = vec!['>'];
    let lt = vec!['<'];
    let tag_stops = vec![' ', '>', '/'];
    let script = vec!['s', 'c', 'r', 'i', 'p', 't'];
    assert(comment_open@ =~= seq!['<', '!', '-', '-']);
    assert(comment_close@ =~= seq!['-', '-', '>']);
    assert(decl_open@ =~= seq!['<', '!']);
    assert(gt@ =~= seq!['>']);
    assert(lt@ =~= seq!['<']);
    assert(tag_stops@ =~= tag_name_stops());
    assert(script@ =~= seq!['s', 'c', 'r', 'i', 'p', 't']);
    proof {
        assert(n0[p].children@.subrange(0, oc) =~= n0[p].children@);
        lemma_forest_empty(n0, p, oc);
        assert(Seq::<Parsed>::empty() + parse_items(h@, start as int) =~= parse_items(h@, start as int));
        assert(preorder_kids(n0, p, oc) == Seq::<int>::empty());
        assert(preorder_kids(n0, p, oc) =~= id_range(n0.len() as int, n0.len() as int));
    }
    while pos < len
        invariant
            tree.wf(),
            len == h.len(),
            len < usize::MAX,
            start <= pos <= len + 1,
            n0 == old(tree).nodes(),
            p == parent.0 as int,
            oc == n0[p].children@.len(),
            grows_under(n0, tree.nodes(), p),
            forest(tree.nodes(), p, oc) + parse_items(h@, pos as int) == parse_items(h@, start as int),
            parse_ok(h@, start as int) == parse_ok(h@, pos as int),
            preorder_kids(tree.nodes(), p, oc) == id_range(n0.len() as int, tree.nodes().len() as int),
            forall|i: int| n0.len() <= i < tree.nodes().len() ==> parsed_kind(#[trigger] tree.nodes()[i]),
            lt_closed(h@) ==> forall|i: int| n0.len() <= i < tree.nodes().len() ==> !is_script_node(#[trigger] tree.nodes()[i]),
            comment_open@ == seq!['<', '!', '-', '-'],
            comment_close@ == seq!['-', '-', '>'],
            decl_open@ == seq!['<', '!'],
            gt@ == seq!['>'],
            lt@ == seq!['<'],
            tag_stops@ == tag_name_stops(),
            script@ == seq!['s', 'c', 'r', 'i', 'p', 't'],
        decreases len + 1 - pos,
    {
        let ghost nb = tree.nodes();
        proof {
            tree.lemma_wf();
        }
        let ghost total = parse_items(h@, start as int);
        let ghost hv = h@;
        let ghost ip = pos as int;
        if h[pos] == '<' {
            if pos + 1 < len && h[pos + 1] == '/' {
                assert(parse_items(hv, ip) == Seq::<Parsed>::empty());
                assert(forest(nb, p, oc) + Seq::<Parsed>::empty() =~= forest(nb, p, oc));
                return true;
            }
            if matches_at(h, &comment_open, pos) {
                if let Some(end) = find(h, &comment_close, pos) {
                    proof {
                        assert(parse_items(hv, ip) == parse_items(hv, end + 3));
                        assert(parse_ok(hv, ip) == parse_ok(hv, end + 3));
                    }
                    pos = end + 3;
                    continue;
                }
            }
            if matches_at(h, &decl_open, pos) {
                let gt_at = scan_to(h, pos, &gt);
                proof {
                    lemma_scan_until(hv, ip, in_set(seq!['>']));
                    if gt_at + 1 <= len {
                        assert(parse_items(hv, ip) == parse_items(hv, gt_at + 1));
                        assert(parse_ok(hv, ip) == parse_ok(hv, gt_at + 1));
                    } else {
                        assert(parse_items(hv, ip) == Seq::<Parsed>::empty());
                        assert(parse_items(hv, gt_at + 1) == Seq::<Parsed>::empty());
                        assert(parse_ok(hv, ip));
                    }
                }
                pos = gt_at + 1;
                continue;
            }
            let ts = pos + 1;
            let te = scan_to(h, ts, &tag_stops);
            let tag_chars = crate::text::sub_chars(h, ts, te);
            let ghost tag = tag_chars@;
            if chars_eq_ignore_ascii_case(&tag_chars, &script) {
                if let Some(d) = find_tag_end(h, te, &tag_chars) {
                    proof {
                        lemma_scan_until(hv, ts as int, in_set(tag_name_stops()));
                        lemma_index_after_bytes(hv, te as int, d as int);
                    }
                    match skip_bytes(h, te, d) {
                        ByteSkip::Lands(e) => {
                            proof {
                                assert(parse_items(hv, ip) == parse_items(hv, e as int));
                                assert(parse_ok(hv, ip) == parse_ok(hv, e as int));
                            }
                            pos = e;
                            continue;
                        },
                        ByteSkip::PastEnd => {
                            proof {
                                assert(parse_items(hv, ip) == Seq::<Parsed>::empty());
                                assert(parse_ok(hv, ip));
                                assert(forest(nb, p, oc) + Seq::<Parsed>::empty() =~= forest(nb, p, oc));
                            }
                            return true;
                        },
                        ByteSkip::SplitsChar => {
                            proof {
                                assert(!parse_ok(hv, ip));
                            }
                            return false;
                        },
                    }
                } else {
                    proof {
                        if lt_closed(hv) {
                            lemma_gt_after_tag_name(hv, ip);
                        }
                    }
                }
            }
            assert(lt_closed(hv) ==> !eq_ignore_ascii_case(tag, seq!['s', 'c', 'r', 'i', 'p', 't']));
            let (attrs, ae) = parse_attributes(h, te);
            let ghost attrs_view = attrs@;
            let self_closing = ae < len && h[ae] == '/';
            let p1 = if self_closing { ae + 1 } else { ae };
            let p2 = if p1 < len && h[p1] == '>' { p1 + 1 } else { p1 };
            let tag_string = string_of(h, ts, te);
            let is_void = is_void_element(tag_string.as_str());
            let node = tree.add_element(parent, tag_string.as_str(), attrs);
            let ghost n1 = tree.nodes();
            proof {
                tree.lemma_wf();
                lemma_forest_empty(n1, node.0 as int, 0);
                assert(subtree(n1, node.0 as int) == Parsed::Element { tag, attrs: attrs_view, kids: Seq::empty() });
            }
            if !self_closing && !is_void {
                let kids_ok = parse_children(tree, node, h, p2);
                let ghost n2 = tree.nodes();
                let ghost el = Parsed::Element { tag, attrs: attrs_view, kids: parse_items(hv, p2 as int) };
                proof {
                    tree.lemma_wf();
                    assert(n2[p] == n1[p]);
                    assert forall|y: int| p < y < nb.len() implies n2[y] == nb[y] by {}
                    lemma_forest_snoc(nb, n2, p, oc, node.0);
                    assert(grows_under(nb, n2, p)) by {
                        assert(n2[p].children@.subrange(0, nb[p].children@.len() as int) =~= nb[p].children@);
                    }
                    lemma_grows_under_trans(n0, nb, n2, p);
                    let c = node.0 as int;
                    assert(preorder(n2, c) =~= id_range(c, n2.len() as int));
                    assert(preorder_kids(n2, p, oc) =~= id_range(n0.len() as int, n2.len() as int));
                    assert forall|i: int| n0.len() <= i < n2.len() implies parsed_kind(#[trigger] n2[i]) by {
                        if i < n1.len() && i != c {
                            assert(n2[i] == n1[i]);
                            assert(n1[i] == nb[i]);
                        }
                    }
                    if lt_closed(hv) {
                        assert forall|i: int| n0.len() <= i < n2.len() implies !is_script_node(#[trigger] n2[i]) by {
                            if i < n1.len() && i != c {
                                assert(n2[i] == n1[i]);
                                assert(n1[i] == nb[i]);
                            }
                        }
                    }
                }
                if !kids_ok {
                    proof {
                        assert(!parse_ok(hv, ip));
                    }
                    return false;
                }
                proof {
                    assert(n2[node.0 as int].children@.subrange(0, 0) =~= Seq::<DomNodeId>::empty());
                    assert(subtree(n2, node.0 as int) == el);
                    assert(forest(n2, p, oc) == forest(nb, p, oc) + seq![el]);
                }
                match find_close_skip(h, p2, &tag_chars) {
                    Some(d) => {
                        proof {
                            lemma_index_after_bytes(hv, p2 as int, d as int);
                        }
                        match skip_bytes(h, p2, d) {
                            ByteSkip::Lands(e) => {
                                proof {
                                    assert(parse_items(hv, ip) == seq![el] + parse_items(hv, e as int));
                                    assert(parse_ok(hv, ip) == parse_ok(hv, e as int));
                                    assert(forest(n2, p, oc) + parse_items(hv, e as int) =~= forest(nb, p, oc) + (seq![el] + parse_items(hv, e as int)));
                                }
                                pos = e;
                            },
                            ByteSkip::PastEnd => {
                                proof {
                                    assert(parse_items(hv, ip) == seq![el] + Seq::<Parsed>::empty());
                                    assert(parse_ok(hv, ip));
                                    assert(forest(n2, p, oc) + Seq::<Parsed>::empty() =~= forest(n2, p, oc));
                                    assert(forest(nb, p, oc) + (seq![el] + Seq::<Parsed>::empty()) =~= forest(n2, p, oc));
                                }
                                return true;
                            },
                            ByteSkip::SplitsChar => {
                                proof {
                                    assert(!parse_ok(hv, ip));
                                }
                                return false;
                            },
                        }
                    },
                    None => {
                        proof {
                            assert(parse_items(hv, ip) == seq![el]);
                            assert(parse_ok(hv, ip));
                        }
                        return true;
                    },
                }
            } else {
                proof {
                    assert(n1[p].children@ == nb[p].children@.push(node));
                    assert forall|y: int| p < y < nb.len() implies n1[y] == nb[y] by {}
                    lemma_forest_snoc(nb, n1, p, oc, node.0);
                    assert(grows_under(nb, n1, p)) by {
                        assert(n1[p].children@.subrange(0, nb[p].children@.len() as int) =~= nb[p].children@);
                    }
                    lemma_grows_under_trans(n0, nb, n1, p);
                    lemma_preorder_leaf(n1, node.0 as int);
                    assert(preorder_kids(n1, p, oc) =~= id_range(n0.len() as int, n1.len() as int));
                    lemma_one_node_added(n0.len() as int, nb, n1, p, lt_closed(hv));
                    let el = Parsed::Element { tag, attrs: attrs_view, kids: Seq::empty() };
                    assert(parse_items(hv, ip) == seq![el] + parse_items(hv, p2 as int));
                    assert(parse_ok(hv, ip) == parse_ok(hv, p2 as int));
                    assert(forest(n1, p, oc) + parse_items(hv, p2 as int) =~= forest(nb, p, oc) + (seq![el] + parse_items(hv, p2 as int)));
                }
                pos = p2;
            }
        } else {
            let te = scan_to(h, pos, &lt);
            let (a, b) = trim_bounds(h, pos, te);
            proof {
                lemma_scan_until(hv, ip, in_set(seq!['<']));
                assert(parse_ok(hv, ip) == parse_ok(hv, te as int));
            }
            if b > a {
                let text = string_of(h, a, b);
                let node = tree.add_text(parent, text.as_str());
                proof {
                    let n1 = tree.nodes();
                    tree.lemma_wf();
                    lemma_trim_edges(hv.subrange(ip, te as int));
                    assert forall|y: int| p < y < nb.len() implies n1[y] == nb[y] by {}
                    lemma_forest_snoc(nb, n1, p, oc, node.0);
                    assert(grows_under(nb, n1, p)) by {
                        assert(n1[p].children@.subrange(0, nb[p].children@.len() as int) =~= nb[p].children@);
                    }
                    lemma_grows_under_trans(n0, nb, n1, p);
                    lemma_preorder_leaf(n1, node.0 as int);
                    assert(preorder_kids(n1, p, oc) =~= id_range(n0.len() as int, n1.len() as int));
                    lemma_one_node_added(n0.len() as int, nb, n1, p, lt_closed(hv));
                    let t = Parsed::Text { text: hv.subrange(a as int, b as int) };
                    assert(subtree(n1, node.0 as int) == t);
                    assert(parse_items(hv, ip) == seq![t] + parse_items(hv, te as int));
                    assert(forest(n1, p, oc) + parse_items(hv, te as int) =~= forest(nb, p, oc) + (seq![t] + parse_items(hv, te as int)));
                }
            } else {
                proof {
                    assert(parse_items(hv, ip) =~= parse_items(hv, te as int));
                }
            }
            pos = te;
        }
    }
    proof {
        assert(parse_items(h@, pos as int) == Seq::<Parsed>::empty());
        assert(parse_ok(h@, pos as int));
        assert(forest(tree.nodes(), p, oc) + Seq::<Parsed>::empty() =~= forest(tree.nodes(), p, oc));
    }
    true
}


/// The tree that parsing `html` gives (see `parse_html_simple`), and
/// whether the parse went through without resuming inside a character.
fn build_tree(html: &str) -> (r: (DomTree, bool))
    requires
        html@.len() < usize::MAX,
    ensures
        r.1 == parse_ok(html@, 0),
        r.0.wf(),
        r.1 ==> parsed_from(r.0.nodes(), html@),
        lt_closed(html@) ==> forall|i: int| 0 <= i < r.0.nodes().len() ==> !is_script_node(#[trigger] r.0.nodes()[i]),
{
    let mut tree = DomTree::new();
    let root = tree.root();
    let html_tag = "html";
    proof {
        reveal_strlit("html");
        assert(html_tag@ =~= seq!['h', 't', 'm', 'l']);
    }
    let html_el = tree.add_element(root, html_tag, crate::attrs::Attributes::new());
    let h = chars_of(html);
    let ghost n1 = tree.nodes();
    proof {
        assert(n1[0].children@ =~= seq![DomNodeId(1)]);
    }
    let ok = parse_children(&mut tree, html_el, &h, 0);
    proof {
        let n2 = tree.nodes();
        tree.lemma_wf();
        assert(n2[0] == n1[0]);
        assert(n2[1].children@.subrange(0, 0) =~= Seq::<DomNodeId>::empty());
        assert(preorder(n2, 1) =~= id_range(1, n2.len() as int));
        assert(child(n2, 0, 0) == 1);
        assert(preorder_kids(n2, 0, 1) == Seq::<int>::empty());
        assert(preorder_kids(n2, 0, 0) =~= preorder(n2, 1));
        assert(preorder(n2, 0) =~= id_range(0, n2.len() as int));
        assert forall|i: int| 1 <= i < n2.len() implies parsed_kind(#[trigger] n2[i]) by {
            if i == 1 {
                assert(n2[1].kind == n1[1].kind);
            }
        }
        if lt_closed(h@) {
            assert forall|i: int| 0 <= i < n2.len() implies !is_script_node(#[trigger] n2[i]) by {
                if i == 1 {
                    assert(n2[1].kind == n1[1].kind);
                }
            }
        }
    }
    (tree, ok)
}

/// Whether `html` parses without resuming inside a character (`parse_ok`);
/// the inputs on which it does not are those that `parse_html` refuses.
pub fn html_parses(html: &str) -> (r: bool)
    requires
        html@.len() < usize::MAX,
    ensures
        r == parse_ok(html@, 0),
{
    build_tree(html).1
}

/// Parse an HTML document string into a DOM tree: the tree that
/// `parse_html_simple` gives, since both meet `parsed_from` and
/// `law_parse_is_determined` shows that it fixes the tree node by node.
pub fn parse_html(html: &str) -> (r: DomTree)
    requires
        html@.len() < usize::MAX,
        parse_ok(html@, 0),
    ensures
        r.wf(),
        parsed_from(r.nodes(), html@),
        lt_closed(html@) ==> forall|i: int| 0 <= i < r.nodes().len() ==> !is_script_node(#[trigger] r.nodes()[i]),
{
    parse_html_simple(html)
}

/// Parse an HTML string: the document root gets one `html` element, under
/// which the whole input is parsed. The nodes are numbered in document
/// (pre-)order, and every node but the root is an XHTML element or text.
pub fn parse_html_simple(html: &str) -> (r: DomTree)
    requires
        html@.len() < usize::MAX,
        parse_ok(html@, 0),
    ensures
        r.wf(),
        parsed_from(r.nodes(), html@),
        lt_closed(html@) ==> forall|i: int| 0 <= i < r.nodes().len() ==> !is_script_node(#[trigger] r.nodes()[i]),
{
    build_tree(html).0
}

/// `parse_html` on the inputs it accepts, `None` on those where the parse
/// would resume inside a character.
pub fn try_parse_html(html: &str) -> (r: Option<DomTree>)
    requires
        html@.len() < usize::MAX,
    ensures
        r is Some <==> parse_ok(html@, 0),
        r matches Some(t) ==> t.wf() && parsed_from(t.nodes(), html@),
        r matches Some(t) ==> (lt_closed(html@) ==> forall|i: int| 0 <= i < t.nodes().len() ==> !is_script_node(#[trigger] t.nodes()[i])),
{
    if html_parses(html) {
        Some(parse_html(html))
    } else {
        None
    }
}

} // verus!
