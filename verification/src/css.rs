//! CSS text: declarations (`property: value`) and style sheets (rules of a
//! selector and a declaration block).

use vstd::prelude::*;
use crate::text::{
    chars_of, string_of, sub_chars, to_lowercase, unicode_lowercase, trim, trim_bounds, find,
    find_from, split, split_bounds, remove_all, remove_all_from, contains, contains_chars,
    is_ascii_ws, is_ascii_whitespace,
};

verus! {

/// A parsed CSS declaration (property: value pair).
#[derive(Debug)]
pub struct CssDeclaration {
    pub property: String,
    pub value: String,
    pub important: bool,
}

impl CssDeclaration {
    /// The declaration as (property, value, important).
    pub open spec fn view(&self) -> (Seq<char>, Seq<char>, bool) {
        (self.property@, self.value@, self.important)
    }
}

impl Clone for CssDeclaration {
    fn clone(&self) -> (r: CssDeclaration)
        ensures
            r@ == self@,
    {
        CssDeclaration {
            property: self.property.clone(),
            value: self.value.clone(),
            important: self.important,
        }
    }
}

/// The marker `!important`.
pub open spec fn important_marker() -> Seq<char> {
    seq!['!', 'i', 'm', 'p', 'o', 'r', 't', 'a', 'n', 't']
}

/// The declaration that one `;`-separated piece holds: none when the piece
/// is blank or has no `:`; otherwise the lower-cased trimmed text before the
/// first `:` as property, and the trimmed rest with every `!important`
/// removed (and trimmed again) as value, important when the rest held
/// `!important`.
pub open spec fn decl_of(piece: Seq<char>) -> Option<(Seq<char>, Seq<char>, bool)> {
    let d = trim(piece);
    if d.len() == 0 {
        None
    } else {
        match find_from(d, seq![':'], 0) {
            Some(i) => {
                let v = trim(d.subrange(i + 1, d.len() as int));
                Some(
                    (
                        unicode_lowercase(trim(d.subrange(0, i))),
                        trim(remove_all_from(v, important_marker(), 0)),
                        contains(v, important_marker()),
                    ),
                )
            },
            None => None,
        }
    }
}

/// The declarations of a sequence of pieces, in order.
pub open spec fn decls_of(pieces: Seq<Seq<char>>) -> Seq<(Seq<char>, Seq<char>, bool)>
    decreases pieces.len(),
{
    if pieces.len() == 0 {
        Seq::empty()
    } else {
        decls_of(pieces.drop_last()) + match decl_of(pieces.last()) {
            Some(d) => seq![d],
            None => Seq::empty(),
        }
    }
}

/// The declarations of a style attribute (pieces split at `;`).
pub open spec fn style_decls(s: Seq<char>) -> Seq<(Seq<char>, Seq<char>, bool)> {
    decls_of(split(s, ';'))
}

/// The declaration a piece holds.
fn decl_from_piece(piece: &Vec<char>) -> (r: Option<CssDeclaration>)
    ensures
        match r {
            Some(d) => decl_of(piece@) == Some(d@),
            None => decl_of(piece@) is None,
        },
{
    let (a, b) = trim_bounds(piece, 0, piece.len());
    assert(piece@.subrange(0, piece@.len() as int) =~= piece@);
    if a == b {
        return None;
    }
    let d = sub_chars(piece, a, b);
    let colon = vec![':'];
    assert(colon@ =~= seq![':']);
    match find(&d, &colon, 0) {
        Some(i) => {
            let (pa, pb) = trim_bounds(&d, 0, i);
            let prop_plain = string_of(&d, pa, pb);
            let property = to_lowercase(prop_plain.as_str());
            let (va, vb) = trim_bounds(&d, i + 1, d.len());
            let v = sub_chars(&d, va, vb);
            let marker = crate::text::lit("!important");
            proof {
                reveal_strlit("!important");
                assert(marker@ =~= important_marker());
            }
            let important = contains_chars(&v, &marker);
            let removed = remove_all(&v, &marker);
            let (ra, rb) = trim_bounds(&removed, 0, removed.len());
            assert(removed@.subrange(0, removed@.len() as int) =~= removed@);
            let value = string_of(&removed, ra, rb);
            Some(CssDeclaration { property, value, important })
        },
        None => None,
    }
}

/// The declarations in `s`, split at `;`.
fn parse_declarations(s: &Vec<char>) -> (r: Vec<CssDeclaration>)
    ensures
        r@.map_values(|d: CssDeclaration| d@) == style_decls(s@),
{
    let bounds = split_bounds(s, ';', 0);
    let ghost pieces = split(s@, ';');
    let mut r: Vec<CssDeclaration> = Vec::new();
    let mut j: usize = 0;
    while j < bounds.len()
        invariant
            j <= bounds.len(),
            pieces == split(s@, ';'),
            bounds@.len() == pieces.len(),
            forall|t: int|
                0 <= t < bounds@.len() ==> (#[trigger] bounds@[t]).0 <= bounds@[t].1 <= s.len()
                    && s@.subrange(bounds@[t].0 as int, bounds@[t].1 as int) == pieces[t],
            r@.map_values(|d: CssDeclaration| d@) == decls_of(pieces.take(j as int)),
        decreases bounds.len() - j,
    {
        let (lo, hi) = bounds[j];
        let piece = sub_chars(s, lo, hi);
        let ghost before = r@;
        assert(pieces.take(j + 1).drop_last() =~= pieces.take(j as int));
        assert(pieces.take(j + 1).last() == piece@);
        match decl_from_piece(&piece) {
            Some(d) => {
                r.push(d);
                assert(r@.map_values(|d: CssDeclaration| d@) =~= before.map_values(|d: CssDeclaration| d@).push(d@));
            },
            None => {},
        }
        j += 1;
    }
    assert(pieces.take(bounds.len() as int) =~= pieces);
    r
}

/// Parse a CSS style string (e.g., from a `style` attribute) into
/// declarations.
pub fn parse_style_attribute(style: &str) -> (r: Vec<CssDeclaration>)
    ensures
        r@.map_values(|d: CssDeclaration| d@) == style_decls(style@),
{
    let s = chars_of(style);
    parse_declarations(&s)
}


/// Where a run of ASCII whitespace and `/* */` comments that starts at
/// `pos` ends. An unclosed comment runs past the end (the result may then be
/// one more than the length).
pub open spec fn skip_ws_comments(s: Seq<char>, pos: int) -> int
    decreases s.len() + 3 - pos,
{
    if pos < 0 || pos >= s.len() {
        pos
    } else if is_ascii_ws(s[pos]) {
        skip_ws_comments(s, pos + 1)
    } else if pos + 1 < s.len() && s[pos] == '/' && s[pos + 1] == '*' {
        let e = comment_close(s, pos + 2) + 2;
        if pos < e <= s.len() + 2 {
            skip_ws_comments(s, e)
        } else {
            pos
        }
    } else {
        pos
    }
}

/// The first `i' >= i` with `s[i'] s[i'+1] == "*/"`, or the last index
/// when there is none.
pub open spec fn comment_close(s: Seq<char>, i: int) -> int
    decreases s.len() - i,
{
    if 0 <= i && i + 1 < s.len() && !(s[i] == '*' && s[i + 1] == '/') {
        comment_close(s, i + 1)
    } else {
        i
    }
}

pub proof fn lemma_comment_close(s: Seq<char>, i: int)
    requires
        0 <= i,
    ensures
        i <= comment_close(s, i),
        i + 1 < s.len() ==> comment_close(s, i) + 1 < s.len() || comment_close(s, i) + 1 == s.len(),
        i + 1 >= s.len() ==> comment_close(s, i) == i,
    decreases s.len() - i,
{
    if 0 <= i && i + 1 < s.len() && !(s[i] == '*' && s[i + 1] == '/') {
        lemma_comment_close(s, i + 1);
    }
}

fn skip_whitespace_comments(css: &Vec<char>, pos: usize) -> (r: usize)
    requires
        pos <= css.len(),
        css.len() + 2 <= usize::MAX,
    ensures
        r == skip_ws_comments(css@, pos as int),
        pos <= r <= css.len() + 2,
{
    let len = css.len();
    let mut p: usize = pos;
    while p < len
        invariant
            len == css.len(),
            len + 2 <= usize::MAX,
            pos <= p <= len + 2,
            skip_ws_comments(css@, pos as int) == skip_ws_comments(css@, p as int),
        decreases len + 3 - p,
    {
        if is_ascii_whitespace(css[p]) {
            p += 1;
        } else if p + 1 < len && css[p] == '/' && css[p + 1] == '*' {
            let ghost start = p;
            p += 2;
            while p + 1 < len && !(css[p] == '*' && css[p + 1] == '/')
                invariant
                    len == css.len(),
                    len + 2 <= usize::MAX,
                    start + 2 <= p <= len,
                    comment_close(css@, start + 2) == comment_close(css@, p as int),
                decreases len - p,
            {
                p += 1;
            }
            proof {
                lemma_comment_close(css@, start + 2);
            }
            p += 2;
        } else {
            return p;
        }
    }
    p
}

/// The end of a declaration block whose body starts at `i` with `depth`
/// open braces: the index of the brace that closes it, or the end of `s`.
pub open spec fn block_end(s: Seq<char>, i: int, depth: int) -> int
    decreases s.len() - i,
{
    if i < 0 || i >= s.len() || depth <= 0 {
        i
    } else {
        let d2 = if s[i] == '{' {
            depth + 1
        } else if s[i] == '}' {
            depth - 1
        } else {
            depth
        };
        if d2 > 0 {
            block_end(s, i + 1, d2)
        } else {
            i
        }
    }
}

pub proof fn lemma_block_end(s: Seq<char>, i: int, depth: int)
    requires
        0 <= i <= s.len(),
    ensures
        i <= block_end(s, i, depth) <= s.len(),
    decreases s.len() - i,
{
    if i < s.len() && depth > 0 {
        let d2 = if s[i] == '{' {
            depth + 1
        } else if s[i] == '}' {
            depth - 1
        } else {
            depth
        };
        if d2 > 0 {
            lemma_block_end(s, i + 1, d2);
        }
    }
}

/// The rules of a style sheet read from `pos` on: each is a trimmed
/// selector (everything before `{`) and the declarations of its block; a
/// rule with an empty selector is dropped; reading stops at a selector with
/// no `{`.
pub open spec fn rules_from(s: Seq<char>, pos: int) -> Seq<(Seq<char>, Seq<(Seq<char>, Seq<char>, bool)>)>
    decreases s.len() + 1 - pos,
{
    let p = skip_ws_comments(s, pos);
    if pos < 0 || p >= s.len() || p < pos {
        Seq::empty()
    } else {
        let sel_end = crate::text::scan_until(s, p, crate::text::in_set(seq!['{']));
        if sel_end >= s.len() || sel_end < p {
            Seq::empty()
        } else {
            let selector = trim(s.subrange(p, sel_end));
            let de = block_end(s, sel_end + 1, 1);
            let decls = style_decls(s.subrange(sel_end + 1, de));
            (if selector.len() > 0 {
                seq![(selector, decls)]
            } else {
                Seq::empty()
            }) + if pos < de + 1 <= s.len() {
                rules_from(s, de + 1)
            } else {
                Seq::empty()
            }
        }
    }
}

/// A CSS rule (selector + declarations).
#[derive(Debug, Clone)]
pub struct CssRule {
    pub selector: String,
    pub declarations: Vec<CssDeclaration>,
}

/// A rule as (selector, declarations).
pub type RuleView = (Seq<char>, Seq<(Seq<char>, Seq<char>, bool)>);

impl CssRule {
    /// The rule as (selector, declarations).
    pub open spec fn view(&self) -> RuleView {
        (self.selector@, self.declarations@.map_values(|d: CssDeclaration| d@))
    }
}

/// Parse a CSS style sheet into a list of rules.
pub fn parse_stylesheet(css: &str) -> (r: Vec<CssRule>)
    requires
        css@.len() + 2 <= usize::MAX,
    ensures
        r@.map_values(|x: CssRule| x@) == rules_from(css@, 0),
{
    let s = chars_of(css);
    let len = s.len();
    let mut rules: Vec<CssRule> = Vec::new();
    let mut pos: usize = 0;
    let brace = vec!['{'];
    assert(brace@ =~= seq!['{']);
    let ghost total = rules_from(s@, 0);
    while pos < len
        invariant
            len == s.len(),
            s@ == css@,
            len + 2 <= usize::MAX,
            pos <= len + 1,
            brace@ == seq!['{'],
            total == rules_from(s@, 0),
            total == rules@.map_values(|x: CssRule| x@) + rules_from(s@, pos as int),
        decreases len + 1 - pos,
    {
        let ghost before = rules@.map_values(|x: CssRule| x@);
        let ghost ip = pos as int;
        let p = skip_whitespace_comments(&s, pos);
        if p >= len {
            proof {
                assert(rules_from(s@, ip) == Seq::<(Seq<char>, Seq<(Seq<char>, Seq<char>, bool)>)>::empty());
                assert(total =~= before);
            }
            return rules;
        }
        let sel_end = crate::html::scan_to_brace(&s, p);
        if sel_end >= len {
            proof {
                assert(rules_from(s@, ip) == Seq::<(Seq<char>, Seq<(Seq<char>, Seq<char>, bool)>)>::empty());
                assert(total =~= before);
            }
            return rules;
        }
        let (sa, sb) = trim_bounds(&s, p, sel_end);
        let ds = sel_end + 1;
        let mut q: usize = ds;
        let mut depth: usize = 1;
        while q < len && depth > 0
            invariant
                len == s.len(),
                len + 2 <= usize::MAX,
                ds <= q <= len,
                block_end(s@, ds as int, 1) == block_end(s@, q as int, depth as int),
                depth <= q - ds + 1,
            decreases len - q, depth,
        {
            if s[q] == '{' {
                depth += 1;
            } else if s[q] == '}' {
                depth -= 1;
            }
            if depth > 0 {
                q += 1;
            }
        }
        let body = sub_chars(&s, ds, q);
        let declarations = parse_declarations(&body);
        proof {
            lemma_block_end(s@, ds as int, 1);
        }
        if sb > sa {
            let selector = string_of(&s, sa, sb);
            rules.push(CssRule { selector, declarations });
        }
        proof {
            let d = q as int;
            let item = (s@.subrange(sa as int, sb as int), style_decls(s@.subrange(ds as int, d)));
            let piece: Seq<(Seq<char>, Seq<(Seq<char>, Seq<char>, bool)>)> = if sb > sa { seq![item] } else { Seq::empty() };
            if d + 1 <= len {
                assert(rules_from(s@, ip) == piece + rules_from(s@, d + 1));
            } else {
                assert(rules_from(s@, ip) == piece);
                assert(rules_from(s@, d + 1) == Seq::<(Seq<char>, Seq<(Seq<char>, Seq<char>, bool)>)>::empty());
            }
            if sb > sa {
                assert(rules@.map_values(|x: CssRule| x@) =~= before.push(item));
            } else {
                assert(rules@.map_values(|x: CssRule| x@) =~= before);
            }
            assert(total =~= rules@.map_values(|x: CssRule| x@) + rules_from(s@, d + 1));
        }
        pos = q + 1;
    }
    proof {
        assert(rules_from(s@, pos as int) == Seq::<(Seq<char>, Seq<(Seq<char>, Seq<char>, bool)>)>::empty());
        assert(total =~= rules@.map_values(|x: CssRule| x@));
    }
    rules
}

/// The rules of several style sheets, one sheet after the other.
pub open spec fn sheet_rules(sheets: Seq<Seq<char>>) -> Seq<RuleView>
    decreases sheets.len(),
{
    if sheets.len() == 0 {
        Seq::empty()
    } else {
        sheet_rules(sheets.drop_last()) + rules_from(sheets.last(), 0)
    }
}

/// Every sheet's length fits `usize` with room to spare.
pub open spec fn sheets_fit(sheets: Seq<Seq<char>>, limit: int) -> bool {
    forall|i: int| 0 <= i < sheets.len() ==> (#[trigger] sheets[i]).len() <= limit
}

/// Parse several style sheets and gather their rules, one sheet after the
/// other.
pub fn collect_rules(stylesheets: &Vec<String>) -> (r: Vec<CssRule>)
    requires
        sheets_fit(stylesheets@.map_values(|t: String| t@), usize::MAX - 2),
    ensures
        r@.map_values(|x: CssRule| x@) == sheet_rules(stylesheets@.map_values(|t: String| t@)),
{
    let ghost sv = stylesheets@.map_values(|t: String| t@);
    let mut rules: Vec<CssRule> = Vec::new();
    let mut i: usize = 0;
    proof {
        assert(sv.take(0) =~= Seq::<Seq<char>>::empty());
        assert(rules@.map_values(|x: CssRule| x@) =~= Seq::<RuleView>::empty());
    }
    while i < stylesheets.len()
        invariant
            sv == stylesheets@.map_values(|t: String| t@),
            sheets_fit(sv, usize::MAX - 2),
            i <= stylesheets.len(),
            rules@.map_values(|x: CssRule| x@) == sheet_rules(sv.take(i as int)),
        decreases stylesheets.len() - i,
    {
        assert(sv[i as int].len() <= usize::MAX - 2);
        let mut parsed = parse_stylesheet(stylesheets[i].as_str());
        let ghost before = rules@;
        rules.append(&mut parsed);
        proof {
            assert(sv.take(i + 1).drop_last() =~= sv.take(i as int));
            assert(sv.take(i + 1).last() == stylesheets@[i as int]@);
            assert(rules@.map_values(|x: CssRule| x@) =~= before.map_values(|x: CssRule| x@) + rules_from(sv[i as int], 0));
        }
        i += 1;
    }
    proof {
        assert(sv.take(stylesheets.len() as int) =~= sv);
    }
    rules
}

} // verus!
