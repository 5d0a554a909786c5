//! The text and colour decisions of the xmind mindmap layout: which
//! characters count as CJK, how label text is split into lines, the colour
//! of each section, and the paint of each node by level. Sizes and
//! coordinates are measured in floating point by the renderer.

use vstd::prelude::*;
use crate::ir::{Edge, MindmapData, MindmapNode, NodeShape};
use crate::layered::{edge_ends, last_in_row, texts};
use crate::text::{is_unicode_whitespace, is_whitespace_char, trim, trim_start, trim_end, text_equal, push_char};

verus! {

/// CJK unified ideographs and their extensions (blocks 3400–4DBF,
/// 4E00–9FFF, F900–FAFF and 20000–2CEAF, leaving out 2A6E0–2A6FF).
pub open spec fn is_cjk_char(ch: char) -> bool {
    let u = ch as int;
    (0x3400 <= u <= 0x4dbf) || (0x4e00 <= u <= 0x9fff) || (0xf900 <= u <= 0xfaff) || (0x20000
        <= u <= 0x2a6df) || (0x2a700 <= u <= 0x2b73f) || (0x2b740 <= u <= 0x2b81f) || (0x2b820
        <= u <= 0x2ceaf)
}

/// Whether `ch` is a CJK ideograph, which the layout measures as a full
/// em wide.
pub fn is_cjk(ch: char) -> (r: bool)
    ensures
        r == is_cjk_char(ch),
{
    let u = ch as u32;
    (0x3400 <= u && u <= 0x4dbf) || (0x4e00 <= u && u <= 0x9fff) || (0xf900 <= u && u <= 0xfaff)
        || (0x20000 <= u && u <= 0x2a6df) || (0x2a700 <= u && u <= 0x2b73f) || (0x2b740 <= u && u
        <= 0x2b81f) || (0x2b820 <= u && u <= 0x2ceaf)
}

/// The colour of a section; the palette of four repeats.
pub open spec fn section_color_text(section: int) -> Seq<char> {
    if section % 4 == 0 {
        "#ec662d"@
    } else if section % 4 == 1 {
        "#90c43c"@
    } else if section % 4 == 2 {
        "#f3cf4f"@
    } else {
        "#366ae5"@
    }
}

/// The fill colour of a section.
pub fn section_color(section: usize) -> (color: &'static str)
    ensures
        color@ == section_color_text(section as int),
{
    let k = section % 4;
    if k == 0 {
        "#ec662d"
    } else if k == 1 {
        "#90c43c"
    } else if k == 2 {
        "#f3cf4f"
    } else {
        "#366ae5"
    }
}

/// Section colours repeat every four sections.
pub proof fn lemma_section_color_cycles(section: int)
    requires
        section >= 0,
    ensures
        section_color_text(section + 4) == section_color_text(section),
{
}

/// Label colour on a fill: dark on the two light palette colours, light on
/// every other fill.
pub open spec fn label_color_text(fill: Seq<char>) -> Seq<char> {
    if fill == "#90c43c"@ || fill == "#f3cf4f"@ {
        "#061406"@
    } else {
        "#fafcfa"@
    }
}

/// The label colour that reads on a branch fill.
pub fn section_label_color(fill: &str) -> (color: &'static str)
    ensures
        color@ == label_color_text(fill@),
{
    if text_equal(fill, "#90c43c") || text_equal(fill, "#f3cf4f") {
        "#061406"
    } else {
        "#fafcfa"
    }
}

/// Sections 1 and 2 (of every four) carry dark labels, the others light.
pub proof fn lemma_section_label_contrast(section: int)
    requires
        section >= 0,
    ensures
        label_color_text(section_color_text(section)) == (if section % 4 == 1 || section % 4
            == 2 {
            "#061406"@
        } else {
            "#fafcfa"@
        }),
{
    reveal_strlit("#ec662d");
    reveal_strlit("#90c43c");
    reveal_strlit("#f3cf4f");
    reveal_strlit("#366ae5");
    if section % 4 == 0 {
        assert("#ec662d"@[1] != "#90c43c"@[1]);
        assert("#ec662d"@[1] != "#f3cf4f"@[1]);
    } else if section % 4 == 3 {
        assert("#366ae5"@[1] != "#90c43c"@[1]);
        assert("#366ae5"@[1] != "#f3cf4f"@[1]);
    }
}

/// Every non-overlapping occurrence of `pat`, taken from the left, replaced
/// by `rep`; this is what `str::replace` does for a non-empty pattern.
pub open spec fn replace_all(s: Seq<char>, pat: Seq<char>, rep: Seq<char>) -> Seq<char>
    decreases s.len(),
{
    if pat.len() == 0 || s.len() < pat.len() {
        s
    } else if s.take(pat.len() as int) == pat {
        rep + replace_all(s.skip(pat.len() as int), pat, rep)
    } else {
        seq![s[0]] + replace_all(s.drop_first(), pat, rep)
    }
}

/// The pieces of a text between newlines, as `str::split('\n')` gives
/// them: always at least one piece, an empty one for an empty text.
pub open spec fn split_lines(s: Seq<char>) -> Seq<Seq<char>>
    decreases s.len(),
{
    if s.len() == 0 {
        seq![seq![]]
    } else {
        let prev = split_lines(s.drop_last());
        if s.last() == '\n' {
            prev.push(seq![])
        } else {
            prev.update(prev.len() - 1, prev.last().push(s.last()))
        }
    }
}

/// The line-break markup the xmind labels accept.
pub open spec fn br_slash() -> Seq<char> {
    seq!['<', 'b', 'r', '/', '>']
}

/// The short form of the line-break markup.
pub open spec fn br_plain() -> Seq<char> {
    seq!['<', 'b', 'r', '>']
}

/// The lines of an xmind label: `<br/>` and then `<br>` become line
/// breaks, the text is split at line breaks, and each line is trimmed.
pub open spec fn xmind_line_texts(text: Seq<char>) -> Seq<Seq<char>> {
    let normalized = replace_all(
        replace_all(text, br_slash(), seq!['\n']),
        br_plain(),
        seq!['\n'],
    );
    split_lines(normalized).map_values(|line: Seq<char>| trim(line))
}

proof fn lemma_split_lines_nonempty(s: Seq<char>)
    ensures
        split_lines(s).len() >= 1,
    decreases s.len(),
{
    if s.len() > 0 {
        lemma_split_lines_nonempty(s.drop_last());
    }
}

fn text_chars(text: &str) -> (cs: Vec<char>)
    ensures
        cs@ == text@,
{
    let n = text.unicode_len();
    let mut cs: Vec<char> = Vec::new();
    let mut i: usize = 0;
    while i < n
        invariant
            n == text@.len(),
            i <= n,
            cs@ == text@.take(i as int),
        decreases n - i,
    {
        cs.push(text.get_char(i));
        assert(cs@ =~= text@.take(i + 1));
        i = i + 1;
    }
    assert(text@.take(n as int) =~= text@);
    cs
}

fn matches_at(s: &Vec<char>, pat: &Vec<char>, i: usize) -> (r: bool)
    requires
        i <= s@.len(),
    ensures
        r == (pat@.len() <= s@.len() - i && s@.skip(i as int).take(pat@.len() as int) == pat@),
{
    let n = s.len();
    let m = pat.len();
    if m > n - i {
        return false;
    }
    let mut j: usize = 0;
    while j < m
        invariant
            n == s@.len(),
            m == pat@.len(),
            i + m <= n,
            j <= m,
            forall|k: int| 0 <= k < j ==> s@[i + k] == pat@[k],
        decreases m - j,
    {
        if s[i + j] != pat[j] {
            assert(s@.skip(i as int).take(m as int)[j as int] != pat@[j as int]);
            return false;
        }
        j = j + 1;
    }
    assert(s@.skip(i as int).take(m as int) =~= pat@);
    true
}

fn replace_with_newline(s: &Vec<char>, pat: &Vec<char>) -> (r: Vec<char>)
    requires
        pat@.len() > 0,
    ensures
        r@ == replace_all(s@, pat@, seq!['\n']),
{
    let n = s.len();
    let m = pat.len();
    let mut out: Vec<char> = Vec::new();
    let mut i: usize = 0;
    assert(s@.skip(0) =~= s@);
    while i < n
        invariant
            n == s@.len(),
            m == pat@.len(),
            m > 0,
            i <= n,
            replace_all(s@, pat@, seq!['\n']) == out@ + replace_all(
                s@.skip(i as int),
                pat@,
                seq!['\n'],
            ),
        decreases n - i,
    {
        let ghost rest = s@.skip(i as int);
        let ghost before = out@;
        if matches_at(s, pat, i) {
            out.push('\n');
            proof {
                assert(rest.skip(m as int) =~= s@.skip(i + m));
                assert(out@ + replace_all(s@.skip(i + m), pat@, seq!['\n']) =~= before + (
                seq!['\n'] + replace_all(rest.skip(m as int), pat@, seq!['\n'])));
            }
            i = i + m;
        } else {
            out.push(s[i]);
            proof {
                assert(rest.drop_first() =~= s@.skip(i + 1));
                assert(rest[0] == s@[i as int]);
                assert(out@ + replace_all(s@.skip(i + 1), pat@, seq!['\n']) =~= before + (
                seq![rest[0]] + replace_all(rest.drop_first(), pat@, seq!['\n'])));
            }
            i = i + 1;
        }
    }
    assert(s@.skip(n as int) =~= Seq::<char>::empty());
    assert(out@ + Seq::<char>::empty() =~= out@);
    out
}

proof fn lemma_trim_start_skip(s: Seq<char>, k: int)
    requires
        0 <= k <= s.len(),
        forall|j: int| 0 <= j < k ==> is_unicode_whitespace(#[trigger] s[j]),
    ensures
        trim_start(s) == trim_start(s.skip(k)),
    decreases k,
{
    if k > 0 {
        assert(s.drop_first().skip(k - 1) =~= s.skip(k));
        assert forall|j: int| 0 <= j < k - 1 implies is_unicode_whitespace(
            #[trigger] s.drop_first()[j],
        ) by {
            assert(s.drop_first()[j] == s[j + 1]);
        }
        lemma_trim_start_skip(s.drop_first(), k - 1);
    } else {
        assert(s.skip(0) =~= s);
    }
}

proof fn lemma_trim_end_take(s: Seq<char>, k: int)
    requires
        0 <= k <= s.len(),
        forall|j: int| k <= j < s.len() ==> is_unicode_whitespace(#[trigger] s[j]),
    ensures
        trim_end(s) == trim_end(s.take(k)),
    decreases s.len() - k,
{
    if k < s.len() {
        assert(s.drop_last().take(k) =~= s.take(k));
        assert forall|j: int| k <= j < s.drop_last().len() implies is_unicode_whitespace(
            #[trigger] s.drop_last()[j],
        ) by {
            assert(s.drop_last()[j] == s[j]);
        }
        lemma_trim_end_take(s.drop_last(), k);
    } else {
        assert(s.take(k) =~= s);
    }
}

fn trimmed_string(cs: &Vec<char>) -> (r: String)
    ensures
        r@ == trim(cs@),
{
    let n = cs.len();
    let mut lo: usize = 0;
    while lo < n && is_whitespace_char(cs[lo])
        invariant
            n == cs@.len(),
            lo <= n,
            forall|j: int| 0 <= j < lo ==> is_unicode_whitespace(#[trigger] cs@[j]),
        decreases n - lo,
    {
        lo = lo + 1;
    }
    proof {
        lemma_trim_start_skip(cs@, lo as int);
    }
    let ghost t = cs@.skip(lo as int);
    assert(trim_start(t) == t);
    let mut hi: usize = n;
    while hi > lo && is_whitespace_char(cs[hi - 1])
        invariant
            n == cs@.len(),
            lo <= hi <= n,
            t == cs@.skip(lo as int),
            forall|j: int| hi <= j < n ==> is_unicode_whitespace(#[trigger] cs@[j]),
        decreases hi - lo,
    {
        hi = hi - 1;
    }
    proof {
        assert forall|j: int| hi - lo <= j < t.len() implies is_unicode_whitespace(
            #[trigger] t[j],
        ) by {
            assert(t[j] == cs@[lo + j]);
        }
        lemma_trim_end_take(t, hi - lo);
        let u = t.take(hi - lo);
        if u.len() > 0 {
            assert(u.last() == cs@[hi - 1]);
        }
        assert(trim_end(u) == u);
    }
    let mut r = String::new();
    let mut k: usize = lo;
    while k < hi
        invariant
            lo <= k <= hi <= n,
            n == cs@.len(),
            r@ == cs@.subrange(lo as int, k as int),
        decreases hi - k,
    {
        push_char(&mut r, cs[k]);
        assert(r@ =~= cs@.subrange(lo as int, k + 1));
        k = k + 1;
    }
    assert(r@ =~= t.take(hi - lo));
    r
}

/// The lines of an xmind label: `<br/>` and `<br>` break lines, and each
/// line is trimmed. There is always at least one line.
pub fn split_xmind_lines(text: &str) -> (lines: Vec<String>)
    ensures
        lines@.map_values(|l: String| l@) == xmind_line_texts(text@),
        lines@.len() >= 1,
{
    let cs = text_chars(text);
    let br_long = vec!['<', 'b', 'r', '/', '>'];
    let br_short = vec!['<', 'b', 'r', '>'];
    assert(br_long@ == br_slash());
    assert(br_short@ == br_plain());
    let once = replace_with_newline(&cs, &br_long);
    let normalized = replace_with_newline(&once, &br_short);
    let ghost norm = normalized@;
    let n = normalized.len();
    let mut lines: Vec<String> = Vec::new();
    let mut cur: Vec<char> = Vec::new();
    let mut i: usize = 0;
    assert(norm.take(0) =~= Seq::<char>::empty());
    assert(split_lines(Seq::<char>::empty()) =~= seq![cur@]);
    while i < n
        invariant
            n == norm.len(),
            norm == normalized@,
            i <= n,
            forall|k: int|
                0 <= k < lines@.len() ==> (#[trigger] lines@[k])@ == trim(
                    split_lines(norm.take(i as int))[k],
                ),
            split_lines(norm.take(i as int)).len() == lines@.len() + 1,
            split_lines(norm.take(i as int)).last() == cur@,
        decreases n - i,
    {
        let c = normalized[i];
        let ghost prev = split_lines(norm.take(i as int));
        assert(norm.take(i + 1).drop_last() =~= norm.take(i as int));
        assert(norm.take(i + 1).last() == c);
        if c == '\n' {
            let line = trimmed_string(&cur);
            lines.push(line);
            cur = Vec::new();
            proof {
                let next = split_lines(norm.take(i + 1));
                assert(next == prev.push(seq![]));
                assert(cur@ =~= Seq::<char>::empty());
                assert forall|k: int| 0 <= k < lines@.len() implies (#[trigger] lines@[k])@
                    == trim(next[k]) by {
                    assert(next[k] == prev[k]);
                }
            }
        } else {
            cur.push(c);
            proof {
                let next = split_lines(norm.take(i + 1));
                assert(next == prev.update(prev.len() - 1, prev.last().push(c)));
                assert forall|k: int| 0 <= k < lines@.len() implies (#[trigger] lines@[k])@
                    == trim(next[k]) by {
                    assert(next[k] == prev[k]);
                }
            }
        }
        i = i + 1;
    }
    let line = trimmed_string(&cur);
    lines.push(line);
    proof {
        assert(norm.take(n as int) =~= norm);
        let sl = split_lines(norm);
        assert(lines@.map_values(|l: String| l@) =~= sl.map_values(|line: Seq<char>| trim(line)));
    }
    lines
}

proof fn lemma_trim_start_is_suffix(s: Seq<char>)
    ensures
        exists|j: int| 0 <= j <= s.len() && trim_start(s) == s.skip(j),
        trim_start(s).len() == 0 || !is_unicode_whitespace(trim_start(s)[0]),
    decreases s.len(),
{
    if s.len() > 0 && is_unicode_whitespace(s[0]) {
        lemma_trim_start_is_suffix(s.drop_first());
        let j = choose|j: int|
            0 <= j <= s.drop_first().len() && trim_start(s.drop_first()) == s.drop_first().skip(j);
        assert(s.drop_first().skip(j) =~= s.skip(j + 1));
    } else {
        assert(s.skip(0) =~= s);
    }
}

proof fn lemma_trim_end_is_prefix(s: Seq<char>)
    ensures
        exists|j: int| 0 <= j <= s.len() && trim_end(s) == s.take(j),
        trim_end(s).len() == 0 || !is_unicode_whitespace(trim_end(s).last()),
    decreases s.len(),
{
    if s.len() > 0 && is_unicode_whitespace(s.last()) {
        lemma_trim_end_is_prefix(s.drop_last());
        let j = choose|j: int|
            0 <= j <= s.drop_last().len() && trim_end(s.drop_last()) == s.drop_last().take(j);
        assert(s.drop_last().take(j) =~= s.take(j));
    } else {
        assert(s.take(s.len() as int) =~= s);
    }
}

/// Trimming a trimmed text changes nothing.
pub proof fn lemma_trim_idempotent(s: Seq<char>)
    ensures
        trim(trim(s)) == trim(s),
{
    let t = trim_start(s);
    lemma_trim_start_is_suffix(s);
    lemma_trim_end_is_prefix(t);
    let u = trim_end(t);
    let j = choose|j: int| 0 <= j <= t.len() && trim_end(t) == t.take(j);
    if u.len() > 0 {
        assert(u[0] == t[0]);
        assert(trim_start(u) == u);
    } else {
        assert(trim_start(u) == u);
    }
}

/// A trimmed text holds no character that the text did not hold.
proof fn lemma_trim_keeps_no_newline(s: Seq<char>)
    requires
        !s.contains('\n'),
    ensures
        !trim(s).contains('\n'),
{
    lemma_trim_start_is_suffix(s);
    let t = trim_start(s);
    let i = choose|j: int| 0 <= j <= s.len() && trim_start(s) == s.skip(j);
    lemma_trim_end_is_prefix(t);
    let j = choose|j: int| 0 <= j <= t.len() && trim_end(t) == t.take(j);
    if trim(s).contains('\n') {
        let k = choose|k: int| 0 <= k < trim(s).len() && trim(s)[k] == '\n';
        assert(s[i + k] == '\n');
    }
}

proof fn lemma_split_lines_no_newline(s: Seq<char>)
    ensures
        forall|k: int|
            0 <= k < split_lines(s).len() ==> !(#[trigger] split_lines(s)[k]).contains('\n'),
    decreases s.len(),
{
    if s.len() > 0 {
        lemma_split_lines_no_newline(s.drop_last());
        lemma_split_lines_nonempty(s.drop_last());
        let prev = split_lines(s.drop_last());
        if s.last() != '\n' {
            assert forall|k: int|
                0 <= k < split_lines(s).len() implies !(#[trigger] split_lines(s)[k]).contains(
                '\n',
            ) by {
                if k == prev.len() - 1 {
                    let line = prev.last().push(s.last());
                    if line.contains('\n') {
                        let m = choose|m: int| 0 <= m < line.len() && line[m] == '\n';
                        if m < prev.last().len() {
                            assert(prev.last()[m] == '\n');
                            assert(prev[prev.len() - 1].contains('\n'));
                        }
                    }
                }
            }
        } else {
            assert forall|k: int|
                0 <= k < split_lines(s).len() implies !(#[trigger] split_lines(s)[k]).contains(
                '\n',
            ) by {
                if k == prev.len() {
                    assert(split_lines(s)[k] =~= Seq::<char>::empty());
                }
            }
        }
    }
}

/// Every line of an xmind label is already trimmed and holds no line
/// break, and there is always at least one line.
pub proof fn lemma_xmind_lines_clean(text: Seq<char>)
    ensures
        xmind_line_texts(text).len() >= 1,
        forall|k: int|
            0 <= k < xmind_line_texts(text).len() ==> {
                &&& !(#[trigger] xmind_line_texts(text)[k]).contains('\n')
                &&& trim(xmind_line_texts(text)[k]) == xmind_line_texts(text)[k]
            },
{
    let normalized = replace_all(
        replace_all(text, br_slash(), seq!['\n']),
        br_plain(),
        seq!['\n'],
    );
    lemma_split_lines_nonempty(normalized);
    lemma_split_lines_no_newline(normalized);
    assert forall|k: int| 0 <= k < xmind_line_texts(text).len() implies {
        &&& !(#[trigger] xmind_line_texts(text)[k]).contains('\n')
        &&& trim(xmind_line_texts(text)[k]) == xmind_line_texts(text)[k]
    } by {
        let line = split_lines(normalized)[k];
        lemma_trim_keeps_no_newline(line);
        lemma_trim_idempotent(line);
    }
}

/// The width class by which the xmind layout measures a character.
#[derive(Debug, Clone, Copy, PartialEq, Eq)]
pub enum XmindCharClass {
    /// A CJK ideograph: a full em, scaled by the CJK factor.
    Cjk,
    /// ASCII whitespace.
    Whitespace,
    /// ASCII punctuation.
    Punctuation,
    /// Any other ASCII character.
    Ascii,
    /// A non-ASCII character that is not a CJK ideograph: measured like CJK.
    Wide,
}

/// ASCII whitespace as `char::is_ascii_whitespace` defines it: space, tab,
/// line feed, form feed and carriage return.
pub open spec fn is_ascii_whitespace_char(ch: char) -> bool {
    let u = ch as int;
    u == 0x20 || u == 0x09 || u == 0x0a || u == 0x0c || u == 0x0d
}

/// ASCII punctuation as `char::is_ascii_punctuation` defines it.
pub open spec fn is_ascii_punctuation_char(ch: char) -> bool {
    let u = ch as int;
    (0x21 <= u <= 0x2f) || (0x3a <= u <= 0x40) || (0x5b <= u <= 0x60) || (0x7b <= u <= 0x7e)
}

/// The width class of a character: CJK first, then ASCII whitespace,
/// punctuation and other ASCII, and everything else wide.
pub open spec fn char_class_of(ch: char) -> XmindCharClass {
    if is_cjk_char(ch) {
        XmindCharClass::Cjk
    } else if is_ascii_whitespace_char(ch) {
        XmindCharClass::Whitespace
    } else if is_ascii_punctuation_char(ch) {
        XmindCharClass::Punctuation
    } else if (ch as int) < 0x80 {
        XmindCharClass::Ascii
    } else {
        XmindCharClass::Wide
    }
}

/// The width class of a character of an xmind label.
pub fn xmind_char_class(ch: char) -> (class: XmindCharClass)
    ensures
        class == char_class_of(ch),
{
    let u = ch as u32;
    if is_cjk(ch) {
        XmindCharClass::Cjk
    } else if u == 0x20 || u == 0x09 || u == 0x0a || u == 0x0c || u == 0x0d {
        XmindCharClass::Whitespace
    } else if (0x21 <= u && u <= 0x2f) || (0x3a <= u && u <= 0x40) || (0x5b <= u && u <= 0x60)
        || (0x7b <= u && u <= 0x7e) {
        XmindCharClass::Punctuation
    } else if u < 0x80 {
        XmindCharClass::Ascii
    } else {
        XmindCharClass::Wide
    }
}

/// How an xmind node is painted: its shape, fill, label colour, border
/// stroke, and the colour of the edges that lead to it (none for the root).
#[derive(Debug, Clone, Copy)]
pub struct XmindNodePaint {
    pub shape: NodeShape,
    pub fill: &'static str,
    pub text_color: &'static str,
    pub stroke: &'static str,
    pub line_color: Option<&'static str>,
}

/// The paint of a node at `level` in `section` (section 0 when none):
/// the root is a dark rounded rectangle, first-level branches are stadiums
/// in their section colour, and deeper topics are plain text underlined in
/// their section colour. No node has a border.
pub fn xmind_node_paint(level: usize, section: Option<usize>) -> (p: XmindNodePaint)
    ensures
        p.stroke@ == "none"@,
        level == 0 ==> {
            &&& p.shape == NodeShape::RoundRect
            &&& p.fill@ == "#28292d"@
            &&& p.text_color@ == "#fdfcfd"@
            &&& p.line_color is None
        },
        level == 1 ==> {
            let fill = section_color_text(section.unwrap_or(0) as int);
            &&& p.shape == NodeShape::Stadium
            &&& p.fill@ == fill
            &&& p.text_color@ == label_color_text(fill)
            &&& p.line_color matches Some(c) && c@ == fill
        },
        level >= 2 ==> {
            &&& p.shape == NodeShape::Text
            &&& p.fill@ == "transparent"@
            &&& p.text_color@ == "#0d0d0d"@
            &&& p.line_color matches Some(c) && c@ == section_color_text(
                section.unwrap_or(0) as int,
            )
        },
{
    let s = match section {
        Some(s) => s,
        None => 0,
    };
    let color = section_color(s);
    if level == 0 {
        XmindNodePaint {
            shape: NodeShape::RoundRect,
            fill: "#28292d",
            text_color: "#fdfcfd",
            stroke: "none",
            line_color: None,
        }
    } else if level == 1 {
        XmindNodePaint {
            shape: NodeShape::Stadium,
            fill: color,
            text_color: section_label_color(color),
            stroke: "none",
            line_color: Some(color),
        }
    } else {
        XmindNodePaint {
            shape: NodeShape::Text,
            fill: "transparent",
            text_color: "#0d0d0d",
            stroke: "none",
            line_color: Some(color),
        }
    }
}

/// The root of a mindmap: the declared root, or else the first node.
pub fn xmind_root_id(mindmap: &MindmapData) -> (root: Option<String>)
    ensures
        match mindmap.root_id {
            Some(r) => root matches Some(x) && x@ == r@,
            None => if mindmap.nodes@.len() > 0 {
                root matches Some(x) && x@ == mindmap.nodes@[0].id@
            } else {
                root is None
            },
        },
{
    match &mindmap.root_id {
        Some(r) => Some(r.clone()),
        None => {
            if mindmap.nodes.len() > 0 {
                Some(mindmap.nodes[0].id.clone())
            } else {
                None
            }
        },
    }
}

/// The index of the last mindmap node with this id; a later node of the
/// same id shadows an earlier one.
pub open spec fn mindmap_entry_index(nodes: Seq<MindmapNode>, id: Seq<char>) -> Option<int>
    decreases nodes.len(),
{
    if nodes.len() == 0 {
        None
    } else if nodes.last().id@ == id {
        Some(nodes.len() - 1)
    } else {
        mindmap_entry_index(nodes.drop_last(), id)
    }
}

/// A found entry index lies inside the node list and carries the id.
pub proof fn lemma_mindmap_entry_index_in_bounds(nodes: Seq<MindmapNode>, id: Seq<char>)
    ensures
        mindmap_entry_index(nodes, id) matches Some(i) ==> 0 <= i < nodes.len() && nodes[i].id@
            == id,
    decreases nodes.len(),
{
    if nodes.len() > 0 && nodes.last().id@ != id {
        lemma_mindmap_entry_index_in_bounds(nodes.drop_last(), id);
    }
}

/// The mindmap node that an id names (the last one declared with it).
pub fn mindmap_entry<'a>(mindmap: &'a MindmapData, id: &str) -> (entry: Option<&'a MindmapNode>)
    ensures
        match mindmap_entry_index(mindmap.nodes@, id@) {
            Some(i) => entry matches Some(n) && *n == mindmap.nodes@[i],
            None => entry is None,
        },
{
    let mut k = mindmap.nodes.len();
    assert(mindmap.nodes@.take(k as int) =~= mindmap.nodes@);
    while k > 0
        invariant
            k <= mindmap.nodes@.len(),
            mindmap_entry_index(mindmap.nodes@, id@) == mindmap_entry_index(
                mindmap.nodes@.take(k as int),
                id@,
            ),
        decreases k,
    {
        assert(mindmap.nodes@.take(k as int).drop_last() =~= mindmap.nodes@.take(k - 1));
        if text_equal(mindmap.nodes[k - 1].id.as_str(), id) {
            return Some(&mindmap.nodes[k - 1]);
        }
        k = k - 1;
    }
    None
}

/// The position of a root child among the root's children (its last
/// listing), or 0 for an id that is not a root child.
pub fn root_child_index(children: &Vec<String>, id: &str) -> (idx: usize)
    ensures
        idx == match last_in_row(texts(children@), id@) {
            Some(i) => i,
            None => 0,
        },
{
    let ghost row = texts(children@);
    let mut k = children.len();
    assert(row.take(k as int) =~= row);
    while k > 0
        invariant
            k <= children@.len(),
            row == texts(children@),
            last_in_row(row, id@) == last_in_row(row.take(k as int), id@),
        decreases k,
    {
        assert(row.take(k as int).drop_last() =~= row.take(k - 1));
        assert(row.take(k as int).last() == children@[k - 1]@);
        if text_equal(children[k - 1].as_str(), id) {
            return k - 1;
        }
        k = k - 1;
    }
    assert(row.take(0) =~= Seq::<Seq<char>>::empty());
    0
}

/// One horizontal placement of the xmind walk: `child` is placed right of
/// `parent`, `gap` pixels past the parent's right edge (wider for the
/// first-level branches around the root).
#[derive(Debug, Clone)]
pub struct XPlacementStep {
    pub child: String,
    pub parent: String,
    pub gap: u32,
}

/// The abstract content of an [`XPlacementStep`].
pub struct XStepView {
    pub child: Seq<char>,
    pub parent: Seq<char>,
    pub gap: int,
}

impl View for XPlacementStep {
    type V = XStepView;

    open spec fn view(&self) -> XStepView {
        XStepView { child: self.child@, parent: self.parent@, gap: self.gap as int }
    }
}

/// The views of a list of placement steps.
pub open spec fn x_step_views(v: Seq<XPlacementStep>) -> Seq<XStepView> {
    v.map_values(|s: XPlacementStep| s@)
}

/// The gap before a placed child: 48 pixels for a first-level branch, 24
/// for any deeper node.
pub open spec fn child_gap(level: usize) -> int {
    if level == 1 {
        48
    } else {
        24
    }
}

/// Whether the walk from `id` ends within `depth` levels: every chain of
/// children that have entries is shorter than `depth`.
pub open spec fn x_walk_bounded(nodes: Seq<MindmapNode>, id: Seq<char>, depth: nat) -> bool
    decreases depth,
{
    depth > 0 && match mindmap_entry_index(nodes, id) {
        None => true,
        Some(i) => forall|k: int|
            0 <= k < nodes[i].children@.len() ==> x_walk_bounded(
                nodes,
                #[trigger] nodes[i].children@[k]@,
                (depth - 1) as nat,
            ),
    }
}

/// The placement steps of the walk from `id`: for each child of `id` in
/// order, the child's own step (when it has an entry) and then the steps of
/// the walk from the child.
pub open spec fn x_walk(nodes: Seq<MindmapNode>, id: Seq<char>, depth: nat) -> Seq<XStepView>
    decreases depth, 0nat,
{
    if depth == 0 {
        seq![]
    } else {
        match mindmap_entry_index(nodes, id) {
            None => seq![],
            Some(i) => x_walk_children(
                nodes,
                id,
                texts(nodes[i].children@),
                (depth - 1) as nat,
            ),
        }
    }
}

/// The placement steps for a list of children of `parent`.
pub open spec fn x_walk_children(
    nodes: Seq<MindmapNode>,
    parent: Seq<char>,
    children: Seq<Seq<char>>,
    depth: nat,
) -> Seq<XStepView>
    decreases depth, children.len(),
{
    if children.len() == 0 {
        seq![]
    } else {
        let c = children.last();
        let own = match mindmap_entry_index(nodes, c) {
            Some(j) => seq![XStepView { child: c, parent: parent, gap: child_gap(nodes[j].level) }],
            None => seq![],
        };
        x_walk_children(nodes, parent, children.drop_last(), depth) + own + x_walk(nodes, c, depth)
    }
}

/// A depth within which the walk from `id` ends, if there is one.
pub open spec fn x_walk_depth(nodes: Seq<MindmapNode>, id: Seq<char>) -> nat {
    choose|depth: nat| x_walk_bounded(nodes, id, depth)
}

fn x_walk_into(
    mindmap: &MindmapData,
    id: &str,
    Ghost(depth): Ghost<nat>,
    out: &mut Vec<XPlacementStep>,
)
    requires
        x_walk_bounded(mindmap.nodes@, id@, depth),
    ensures
        x_step_views(final(out)@) == x_step_views(old(out)@) + x_walk(mindmap.nodes@, id@, depth),
    decreases depth,
{
    let ghost nodes = mindmap.nodes@;
    proof {
        lemma_mindmap_entry_index_in_bounds(nodes, id@);
    }
    let entry = mindmap_entry(mindmap, id);
    match entry {
        None => {
            assert(x_step_views(out@) =~= x_step_views(old(out)@) + Seq::<XStepView>::empty());
        },
        Some(info) => {
            let ghost children = texts(info.children@);
            let ghost start = x_step_views(out@);
            let n = info.children.len();
            let mut k: usize = 0;
            assert(children.take(0) =~= Seq::<Seq<char>>::empty());
            assert(start + Seq::<XStepView>::empty() =~= start);
            while k < n
                invariant
                    n == info.children@.len(),
                    k <= n,
                    depth > 0,
                    nodes == mindmap.nodes@,
                    children == texts(info.children@),
                    forall|j: int|
                        0 <= j < info.children@.len() ==> x_walk_bounded(
                            nodes,
                            #[trigger] info.children@[j]@,
                            (depth - 1) as nat,
                        ),
                    x_step_views(out@) == start + x_walk_children(
                        nodes,
                        id@,
                        children.take(k as int),
                        (depth - 1) as nat,
                    ),
                decreases n - k,
            {
                let child = &info.children[k];
                let ghost before = x_step_views(out@);
                proof {
                    assert(children.take(k + 1).drop_last() =~= children.take(k as int));
                    assert(children.take(k + 1).last() == child@);
                    lemma_mindmap_entry_index_in_bounds(nodes, child@);
                }
                let ghost mid = x_step_views(out@);
                match mindmap_entry(mindmap, child.as_str()) {
                    Some(centry) => {
                        let gap: u32 = if centry.level == 1 {
                            48
                        } else {
                            24
                        };
                        let step = XPlacementStep {
                            child: child.clone(),
                            parent: id.to_owned(),
                            gap,
                        };
                        out.push(step);
                        proof {
                            assert(x_step_views(out@) =~= before.push(step@));
                        }
                    },
                    None => {},
                }
                let ghost after_own = x_step_views(out@);
                x_walk_into(mindmap, child.as_str(), Ghost((depth - 1) as nat), out);
                proof {
                    let own = match mindmap_entry_index(nodes, child@) {
                        Some(j) => seq![
                            XStepView { child: child@, parent: id@, gap: child_gap(nodes[j].level) },
                        ],
                        None => Seq::<XStepView>::empty(),
                    };
                    assert(after_own =~= before + own);
                    assert(x_step_views(out@) =~= start + (x_walk_children(
                        nodes,
                        id@,
                        children.take(k as int),
                        (depth - 1) as nat,
                    ) + own + x_walk(nodes, child@, (depth - 1) as nat)));
                }
                k = k + 1;
            }
            assert(children.take(n as int) =~= children);
        },
    }
}

/// The horizontal placements of the xmind layout, walking from `root`:
/// each child is placed right of its parent, parents before their
/// children, children in order. The walk must end, that is no chain of
/// children leads back to a node it started from.
pub fn assign_x_positions(mindmap: &MindmapData, root: &str) -> (steps: Vec<XPlacementStep>)
    requires
        exists|depth: nat| x_walk_bounded(mindmap.nodes@, root@, depth),
    ensures
        x_step_views(steps@) == x_walk(mindmap.nodes@, root@, x_walk_depth(mindmap.nodes@, root@)),
        places_children_of(mindmap.nodes@, x_step_views(steps@), root@),
        walk_closed(mindmap.nodes@, x_step_views(steps@)),
{
    let ghost depth = x_walk_depth(mindmap.nodes@, root@);
    let mut steps: Vec<XPlacementStep> = Vec::new();
    x_walk_into(mindmap, root, Ghost(depth), &mut steps);
    assert(x_step_views(steps@) =~= Seq::<XStepView>::empty() + x_walk(
        mindmap.nodes@,
        root@,
        depth,
    ));
    proof {
        lemma_x_walk_complete(mindmap.nodes@, root@, depth);
    }
    steps
}

/// The walk does not depend on the depth bound it is given: any two bounds
/// within which it ends give the same steps.
pub proof fn lemma_x_walk_depth_irrelevant(nodes: Seq<MindmapNode>, id: Seq<char>, d1: nat, d2: nat)
    requires
        x_walk_bounded(nodes, id, d1),
        x_walk_bounded(nodes, id, d2),
    ensures
        x_walk(nodes, id, d1) == x_walk(nodes, id, d2),
    decreases d1, 0nat,
{
    lemma_mindmap_entry_index_in_bounds(nodes, id);
    match mindmap_entry_index(nodes, id) {
        None => {},
        Some(i) => {
            let children = texts(nodes[i].children@);
            assert forall|k: int| 0 <= k < children.len() implies x_walk_bounded(
                nodes,
                #[trigger] children[k],
                (d1 - 1) as nat,
            ) && x_walk_bounded(nodes, children[k], (d2 - 1) as nat) by {
                assert(children[k] == nodes[i].children@[k]@);
            }
            lemma_x_walk_children_depth_irrelevant(
                nodes,
                id,
                children,
                (d1 - 1) as nat,
                (d2 - 1) as nat,
            );
        },
    }
}

proof fn lemma_x_walk_children_depth_irrelevant(
    nodes: Seq<MindmapNode>,
    parent: Seq<char>,
    children: Seq<Seq<char>>,
    d1: nat,
    d2: nat,
)
    requires
        forall|k: int|
            0 <= k < children.len() ==> x_walk_bounded(nodes, #[trigger] children[k], d1)
                && x_walk_bounded(nodes, children[k], d2),
    ensures
        x_walk_children(nodes, parent, children, d1) == x_walk_children(nodes, parent, children, d2),
    decreases d1, children.len(),
{
    if children.len() > 0 {
        let rest = children.drop_last();
        assert forall|k: int| 0 <= k < rest.len() implies x_walk_bounded(
            nodes,
            #[trigger] rest[k],
            d1,
        ) && x_walk_bounded(nodes, rest[k], d2) by {
            assert(rest[k] == children[k]);
        }
        lemma_x_walk_children_depth_irrelevant(nodes, parent, rest, d1, d2);
        assert(x_walk_bounded(nodes, children[children.len() - 1], d1));
        lemma_x_walk_depth_irrelevant(nodes, children.last(), d1, d2);
    }
}

/// A step places a node that has an entry, with the gap its level calls
/// for, right of a node whose entry lists it as a child.
pub open spec fn is_child_step(nodes: Seq<MindmapNode>, s: XStepView) -> bool {
    &&& mindmap_entry_index(nodes, s.child) matches Some(c) && s.gap == child_gap(nodes[c].level)
    &&& mindmap_entry_index(nodes, s.parent) matches Some(p) && texts(
        nodes[p].children@,
    ).contains(s.child)
}

/// Every step of a list is a child step.
pub open spec fn all_child_steps(nodes: Seq<MindmapNode>, steps: Seq<XStepView>) -> bool {
    forall|j: int| 0 <= j < steps.len() ==> is_child_step(nodes, #[trigger] steps[j])
}

proof fn lemma_all_child_steps_concat(nodes: Seq<MindmapNode>, a: Seq<XStepView>, b: Seq<XStepView>)
    requires
        all_child_steps(nodes, a),
        all_child_steps(nodes, b),
    ensures
        all_child_steps(nodes, a + b),
{
    assert forall|j: int| 0 <= j < (a + b).len() implies is_child_step(nodes, #[trigger] (a + b)[j]) by {
        if j < a.len() {
            assert((a + b)[j] == a[j]);
        } else {
            assert((a + b)[j] == b[j - a.len()]);
        }
    }
}

/// The walk only ever places a node right of a node that lists it as a
/// child, with the wider gap exactly for first-level nodes.
pub proof fn lemma_x_walk_follows_children(nodes: Seq<MindmapNode>, id: Seq<char>, depth: nat)
    ensures
        all_child_steps(nodes, x_walk(nodes, id, depth)),
    decreases depth, 0nat,
{
    lemma_mindmap_entry_index_in_bounds(nodes, id);
    if depth > 0 {
        match mindmap_entry_index(nodes, id) {
            None => {},
            Some(i) => {
                let children = texts(nodes[i].children@);
                lemma_x_walk_children_follow(nodes, id, i, children, (depth - 1) as nat);
            },
        }
    }
}

proof fn lemma_x_walk_children_follow(
    nodes: Seq<MindmapNode>,
    parent: Seq<char>,
    p: int,
    children: Seq<Seq<char>>,
    depth: nat,
)
    requires
        mindmap_entry_index(nodes, parent) == Some(p),
        forall|k: int| 0 <= k < children.len() ==> texts(nodes[p].children@).contains(
            #[trigger] children[k],
        ),
    ensures
        all_child_steps(nodes, x_walk_children(nodes, parent, children, depth)),
    decreases depth, children.len(),
{
    if children.len() > 0 {
        let rest = children.drop_last();
        let c = children.last();
        assert forall|k: int| 0 <= k < rest.len() implies texts(nodes[p].children@).contains(
            #[trigger] rest[k],
        ) by {
            assert(rest[k] == children[k]);
        }
        lemma_x_walk_children_follow(nodes, parent, p, rest, depth);
        lemma_x_walk_follows_children(nodes, c, depth);
        lemma_mindmap_entry_index_in_bounds(nodes, c);
        assert(texts(nodes[p].children@).contains(children[children.len() - 1]));
        let own = match mindmap_entry_index(nodes, c) {
            Some(j) => seq![XStepView { child: c, parent: parent, gap: child_gap(nodes[j].level) }],
            None => Seq::<XStepView>::empty(),
        };
        assert(all_child_steps(nodes, own));
        lemma_all_child_steps_concat(nodes, x_walk_children(nodes, parent, rest, depth), own);
        lemma_all_child_steps_concat(
            nodes,
            x_walk_children(nodes, parent, rest, depth) + own,
            x_walk(nodes, c, depth),
        );
    }
}

/// `b` is listed as a child by the entry of `a`.
pub open spec fn is_walk_step(nodes: Seq<MindmapNode>, a: Seq<char>, b: Seq<char>) -> bool {
    mindmap_entry_index(nodes, a) matches Some(i) && texts(nodes[i].children@).contains(b)
}

/// Each element of the chain lists the next as a child.
pub open spec fn is_walk_chain(nodes: Seq<MindmapNode>, chain: Seq<Seq<char>>) -> bool {
    forall|t: int| 0 <= t < chain.len() - 1 ==> is_walk_step(nodes, #[trigger] chain[t], chain[t + 1])
}

proof fn lemma_unbounded_chain(nodes: Seq<MindmapNode>, id: Seq<char>, m: nat) -> (chain: Seq<Seq<char>>)
    requires
        !x_walk_bounded(nodes, id, m),
    ensures
        chain.len() == m + 1,
        chain[0] == id,
        is_walk_chain(nodes, chain),
    decreases m,
{
    if m == 0 {
        seq![id]
    } else {
        lemma_mindmap_entry_index_in_bounds(nodes, id);
        let i = mindmap_entry_index(nodes, id)->0;
        let children = nodes[i].children@;
        let k = choose|k: int|
            0 <= k < children.len() && !x_walk_bounded(nodes, #[trigger] children[k]@, (m - 1) as nat);
        let child = children[k]@;
        let rest = lemma_unbounded_chain(nodes, child, (m - 1) as nat);
        assert(texts(children)[k] == child);
        let chain = seq![id] + rest;
        assert forall|t: int| 0 <= t < chain.len() - 1 implies is_walk_step(
            nodes,
            #[trigger] chain[t],
            chain[t + 1],
        ) by {
            if t > 0 {
                assert(chain[t] == rest[t - 1]);
                assert(chain[t + 1] == rest[t]);
                assert(is_walk_step(nodes, rest[t - 1], rest[t - 1 + 1]));
            }
        }
        chain
    }
}

proof fn lemma_bounded_along_chain(
    nodes: Seq<MindmapNode>,
    chain: Seq<Seq<char>>,
    s: int,
    j: int,
    d: nat,
)
    requires
        0 <= s,
        0 <= j,
        s + j < chain.len(),
        is_walk_chain(nodes, chain),
        x_walk_bounded(nodes, chain[s], d),
    ensures
        d > j,
        x_walk_bounded(nodes, chain[s + j], (d - j) as nat),
    decreases j,
{
    if j > 0 {
        lemma_bounded_along_chain(nodes, chain, s, j - 1, d);
        let a = chain[s + j - 1];
        let b = chain[s + j];
        assert(is_walk_step(nodes, chain[s + j - 1], chain[s + j - 1 + 1]));
        let i = mindmap_entry_index(nodes, a)->0;
        let k = choose|k: int| 0 <= k < texts(nodes[i].children@).len() && texts(nodes[i].children@)[k] == b;
        assert(nodes[i].children@[k]@ == b);
        assert(x_walk_bounded(nodes, nodes[i].children@[k]@, (d - j) as nat));
    }
}

proof fn lemma_cycle_unbounded(nodes: Seq<MindmapNode>, chain: Seq<Seq<char>>, s: int, t: int, d: nat)
    requires
        0 <= s < t < chain.len(),
        chain[s] == chain[t],
        is_walk_chain(nodes, chain),
    ensures
        !x_walk_bounded(nodes, chain[s], d),
    decreases d,
{
    if x_walk_bounded(nodes, chain[s], d) {
        lemma_bounded_along_chain(nodes, chain, s, t - s, d);
        lemma_cycle_unbounded(nodes, chain, s, t, (d - (t - s)) as nat);
    }
}

proof fn lemma_pigeonhole(idx: Seq<int>, n: int)
    requires
        0 <= n < idx.len(),
        forall|t: int| 0 <= t < idx.len() ==> 0 <= #[trigger] idx[t] < n,
    ensures
        exists|s: int, t: int| 0 <= s < t < idx.len() && idx[s] == idx[t],
{
    if idx.no_duplicates() {
        idx.unique_seq_to_set();
        vstd::set_lib::lemma_int_range(0, n);
        assert(idx.to_set().subset_of(vstd::set_lib::set_int_range(0, n)));
        vstd::set_lib::lemma_len_subset(idx.to_set(), vstd::set_lib::set_int_range(0, n));
    } else {
        let (a, b) = choose|a: int, b: int|
            0 <= a < idx.len() && 0 <= b < idx.len() && a != b && idx[a] == idx[b];
        if a < b {
            assert(idx[a] == idx[b]);
        } else {
            assert(idx[b] == idx[a]);
        }
    }
}

/// When the walk from `id` ends at all, it ends within one more level than
/// there are mindmap nodes: a longer chain of children would repeat a node,
/// and a repeated node makes the walk go on forever.
pub proof fn lemma_x_walk_ends_within_node_count(nodes: Seq<MindmapNode>, id: Seq<char>, d: nat)
    requires
        x_walk_bounded(nodes, id, d),
    ensures
        x_walk_bounded(nodes, id, (nodes.len() + 1) as nat),
{
    let n = nodes.len() as int;
    if !x_walk_bounded(nodes, id, (n + 1) as nat) {
        let chain = lemma_unbounded_chain(nodes, id, (n + 1) as nat);
        let idx = Seq::new((n + 1) as nat, |t: int| mindmap_entry_index(nodes, chain[t])->0);
        assert forall|t: int| 0 <= t < idx.len() implies 0 <= #[trigger] idx[t] < n by {
            assert(is_walk_step(nodes, chain[t], chain[t + 1]));
            lemma_mindmap_entry_index_in_bounds(nodes, chain[t]);
        }
        lemma_pigeonhole(idx, n);
        let (s, t) = choose|s: int, t: int| 0 <= s < t < idx.len() && idx[s] == idx[t];
        assert(is_walk_step(nodes, chain[s], chain[s + 1]));
        assert(is_walk_step(nodes, chain[t], chain[t + 1]));
        lemma_mindmap_entry_index_in_bounds(nodes, chain[s]);
        lemma_mindmap_entry_index_in_bounds(nodes, chain[t]);
        assert(chain[s] == chain[t]);
        lemma_bounded_along_chain(nodes, chain, 0, s, d);
        lemma_cycle_unbounded(nodes, chain, s, t, (d - s) as nat);
    }
}

/// Whether the walk from `id` ends within `limit` levels.
pub fn x_walk_ends_within(mindmap: &MindmapData, id: &str, limit: usize) -> (r: bool)
    ensures
        r == x_walk_bounded(mindmap.nodes@, id@, limit as nat),
    decreases limit,
{
    if limit == 0 {
        return false;
    }
    proof {
        lemma_mindmap_entry_index_in_bounds(mindmap.nodes@, id@);
    }
    match mindmap_entry(mindmap, id) {
        None => true,
        Some(info) => {
            let ghost gi = mindmap_entry_index(mindmap.nodes@, id@)->0;
            let n = info.children.len();
            let mut k: usize = 0;
            while k < n
                invariant
                    n == info.children@.len(),
                    k <= n,
                    limit > 0,
                    mindmap_entry_index(mindmap.nodes@, id@) == Some(gi),
                    mindmap.nodes@[gi] == *info,
                    forall|j: int|
                        0 <= j < k ==> x_walk_bounded(
                            mindmap.nodes@,
                            #[trigger] info.children@[j]@,
                            (limit - 1) as nat,
                        ),
                decreases n - k,
            {
                if !x_walk_ends_within(mindmap, info.children[k].as_str(), limit - 1) {
                    assert(!x_walk_bounded(
                        mindmap.nodes@,
                        mindmap.nodes@[gi].children@[k as int]@,
                        (limit - 1) as nat,
                    ));
                    return false;
                }
                k = k + 1;
            }
            true
        },
    }
}

/// Whether the walk from `root` ends, i.e. no chain of children leads back
/// to a node it passed. Exact for any mindmap whose node count is below
/// `usize::MAX`; a `true` answer is always right.
pub fn x_walk_ends(mindmap: &MindmapData, root: &str) -> (r: bool)
    ensures
        r ==> exists|depth: nat| x_walk_bounded(mindmap.nodes@, root@, depth),
        mindmap.nodes@.len() < usize::MAX ==> (r <==> exists|depth: nat|
            x_walk_bounded(mindmap.nodes@, root@, depth)),
{
    let n = mindmap.nodes.len();
    let limit = if n < usize::MAX {
        n + 1
    } else {
        n
    };
    let r = x_walk_ends_within(mindmap, root, limit);
    proof {
        if exists|depth: nat| x_walk_bounded(mindmap.nodes@, root@, depth) {
            let d = choose|depth: nat| x_walk_bounded(mindmap.nodes@, root@, depth);
            lemma_x_walk_ends_within_node_count(mindmap.nodes@, root@, d);
        }
    }
    r
}

/// How one diagram edge is drawn in the xmind layout: which edge it is,
/// whether it leaves the root (a curve from the root's side) or a topic (a
/// stub and an elbow), the section that colours it, and, for a root edge,
/// the position of its end among the root's children.
#[derive(Debug, Clone, Copy, PartialEq, Eq)]
pub struct XmindEdgePlan {
    pub index: usize,
    pub from_root: bool,
    pub section: usize,
    pub child_index: usize,
}

/// The plan of an edge whose two ends are mindmap nodes.
pub open spec fn xmind_edge_plan_of(
    nodes: Seq<MindmapNode>,
    root_children: Seq<Seq<char>>,
    from: Seq<char>,
    to: Seq<char>,
    index: int,
) -> Option<XmindEdgePlan> {
    match (mindmap_entry_index(nodes, from), mindmap_entry_index(nodes, to)) {
        (Some(f), Some(t)) => {
            let from_root = nodes[f].level == 0;
            Some(
                XmindEdgePlan {
                    index: index as usize,
                    from_root: from_root,
                    section: match nodes[t].section {
                        Some(s) => s,
                        None => 0,
                    },
                    child_index: if from_root {
                        match last_in_row(root_children, to) {
                            Some(i) => i as usize,
                            None => 0,
                        }
                    } else {
                        0
                    },
                },
            )
        },
        _ => None,
    }
}

/// The plans of the edges whose ends are both mindmap nodes, in edge order.
pub open spec fn xmind_edge_plans_of(
    nodes: Seq<MindmapNode>,
    root_children: Seq<Seq<char>>,
    ends: Seq<(Seq<char>, Seq<char>)>,
) -> Seq<XmindEdgePlan>
    decreases ends.len(),
{
    if ends.len() == 0 {
        seq![]
    } else {
        let prev = xmind_edge_plans_of(nodes, root_children, ends.drop_last());
        match xmind_edge_plan_of(
            nodes,
            root_children,
            ends.last().0,
            ends.last().1,
            ends.len() - 1,
        ) {
            Some(p) => prev.push(p),
            None => prev,
        }
    }
}

/// Which diagram edges the xmind layout draws, and how.
pub fn xmind_edge_plans(mindmap: &MindmapData, root_children: &Vec<String>, edges: &[Edge]) -> (plans: Vec<XmindEdgePlan>)
    ensures
        plans@ == xmind_edge_plans_of(mindmap.nodes@, texts(root_children@), edge_ends(edges@)),
{
    let ghost ends = edge_ends(edges@);
    let ghost nodes = mindmap.nodes@;
    let n = edges.len();
    let mut plans: Vec<XmindEdgePlan> = Vec::new();
    let mut i: usize = 0;
    assert(ends.take(0) =~= Seq::<(Seq<char>, Seq<char>)>::empty());
    while i < n
        invariant
            n == edges@.len(),
            i <= n,
            ends == edge_ends(edges@),
            nodes == mindmap.nodes@,
            plans@ == xmind_edge_plans_of(nodes, texts(root_children@), ends.take(i as int)),
        decreases n - i,
    {
        let edge = &edges[i];
        proof {
            assert(ends.take(i + 1).drop_last() =~= ends.take(i as int));
            assert(ends.take(i + 1).last() == (edge.from@, edge.to@));
            lemma_mindmap_entry_index_in_bounds(nodes, edge.from@);
            lemma_mindmap_entry_index_in_bounds(nodes, edge.to@);
        }
        match (mindmap_entry(mindmap, edge.from.as_str()), mindmap_entry(mindmap, edge.to.as_str())) {
            (Some(f), Some(t)) => {
                let from_root = f.level == 0;
                let section = match t.section {
                    Some(s) => s,
                    None => 0,
                };
                let child_index = if from_root {
                    root_child_index(root_children, edge.to.as_str())
                } else {
                    0
                };
                plans.push(XmindEdgePlan { index: i, from_root, section, child_index });
            },
            _ => {},
        }
        i = i + 1;
    }
    assert(ends.take(n as int) =~= ends);
    plans
}

/// One step of the vertical centring walk, in the order the walk takes
/// them (children before their parent). A leaf takes the next free slot,
/// the slots of the root's branches being set apart from each other; a
/// parent is centred between the steps that placed its first and its last
/// child.
#[derive(Debug, Clone)]
pub enum YStep {
    /// `id` is a leaf of the root's branch number `branch`.
    Leaf { id: String, branch: usize },
    /// `id` is centred between the centres computed at steps `first` and `last`.
    Parent { id: String, first: usize, last: usize },
}

/// The abstract content of a [`YStep`].
pub enum YStepView {
    Leaf { id: Seq<char>, branch: int },
    Parent { id: Seq<char>, first: int, last: int },
}

impl View for YStep {
    type V = YStepView;

    open spec fn view(&self) -> YStepView {
        match self {
            YStep::Leaf { id, branch } => YStepView::Leaf { id: id@, branch: *branch as int },
            YStep::Parent { id, first, last } => YStepView::Parent {
                id: id@,
                first: *first as int,
                last: *last as int,
            },
        }
    }
}

/// The views of a list of centring steps.
pub open spec fn y_step_views(v: Seq<YStep>) -> Seq<YStepView> {
    v.map_values(|s: YStep| s@)
}

/// The children the centring walk visits below `id` (none without an entry).
pub open spec fn walk_children(nodes: Seq<MindmapNode>, id: Seq<char>) -> Seq<Seq<char>> {
    match mindmap_entry_index(nodes, id) {
        Some(i) => texts(nodes[i].children@),
        None => seq![],
    }
}

/// The centring steps of the walk below `id` in branch `branch`, numbered
/// from `base`: the steps of each child in order, then `id`'s own step.
pub open spec fn y_walk(nodes: Seq<MindmapNode>, id: Seq<char>, branch: int, base: int, depth: nat) -> Seq<YStepView>
    decreases depth, 0nat,
{
    if depth == 0 {
        seq![]
    } else {
        let children = walk_children(nodes, id);
        if children.len() == 0 {
            seq![YStepView::Leaf { id: id, branch: branch }]
        } else {
            let kids = y_walk_children(nodes, children, branch, base, (depth - 1) as nat);
            kids.push(
                YStepView::Parent {
                    id: id,
                    first: base + y_walk(nodes, children[0], branch, base, (depth - 1) as nat).len()
                        - 1,
                    last: base + kids.len() - 1,
                },
            )
        }
    }
}

/// The centring steps of a list of children, numbered from `base`.
pub open spec fn y_walk_children(
    nodes: Seq<MindmapNode>,
    children: Seq<Seq<char>>,
    branch: int,
    base: int,
    depth: nat,
) -> Seq<YStepView>
    decreases depth, children.len(),
{
    if children.len() == 0 {
        seq![]
    } else {
        let prev = y_walk_children(nodes, children.drop_last(), branch, base, depth);
        prev + y_walk(nodes, children.last(), branch, base + prev.len(), depth)
    }
}

/// The centring steps of the root's branches, branch by branch.
pub open spec fn y_walk_branches(nodes: Seq<MindmapNode>, branches: Seq<Seq<char>>, depth: nat) -> Seq<YStepView>
    decreases branches.len(),
{
    if branches.len() == 0 {
        seq![]
    } else {
        let prev = y_walk_branches(nodes, branches.drop_last(), depth);
        prev + y_walk(nodes, branches.last(), branches.len() - 1, prev.len() as int, depth)
    }
}

proof fn lemma_y_walk_nonempty(nodes: Seq<MindmapNode>, id: Seq<char>, branch: int, base: int, depth: nat)
    requires
        depth > 0,
    ensures
        y_walk(nodes, id, branch, base, depth).len() > 0,
{
}

fn y_walk_into(
    mindmap: &MindmapData,
    id: &str,
    branch: usize,
    Ghost(depth): Ghost<nat>,
    out: &mut Vec<YStep>,
)
    requires
        x_walk_bounded(mindmap.nodes@, id@, depth),
    ensures
        y_step_views(final(out)@) == y_step_views(old(out)@) + y_walk(
            mindmap.nodes@,
            id@,
            branch as int,
            old(out)@.len() as int,
            depth,
        ),
    decreases depth,
{
    let ghost nodes = mindmap.nodes@;
    let ghost base = out@.len() as int;
    let ghost start = y_step_views(out@);
    proof {
        lemma_mindmap_entry_index_in_bounds(nodes, id@);
    }
    let entry = mindmap_entry(mindmap, id);
    let n = match entry {
        Some(info) => info.children.len(),
        None => 0,
    };
    if n == 0 {
        let ghost before = out@;
        out.push(YStep::Leaf { id: id.to_owned(), branch });
        proof {
            assert(walk_children(nodes, id@).len() == 0);
            assert(y_step_views(out@) =~= y_step_views(before).push(
                YStepView::Leaf { id: id@, branch: branch as int },
            ));
            assert(y_step_views(out@) =~= start + seq![YStepView::Leaf { id: id@, branch: branch as int }]);
        }
        return;
    }
    let info = match entry {
        Some(info) => info,
        None => {
            return;
        },
    };
    let ghost gi = mindmap_entry_index(nodes, id@)->0;
    let ghost children = texts(info.children@);
    assert(children == walk_children(nodes, id@));
    let mut first: usize = 0;
    let mut k: usize = 0;
    assert(children.take(0) =~= Seq::<Seq<char>>::empty());
    assert(start + Seq::<YStepView>::empty() =~= start);
    while k < n
        invariant
            n == info.children@.len(),
            n > 0,
            k <= n,
            depth > 0,
            nodes == mindmap.nodes@,
            children == texts(info.children@),
            start.len() == base,
            k >= 1 ==> out@.len() >= 1,
            forall|j: int|
                0 <= j < info.children@.len() ==> x_walk_bounded(
                    nodes,
                    #[trigger] info.children@[j]@,
                    (depth - 1) as nat,
                ),
            mindmap_entry_index(nodes, id@) == Some(gi),
            nodes[gi] == *info,
            y_step_views(out@) == start + y_walk_children(
                nodes,
                children.take(k as int),
                branch as int,
                base,
                (depth - 1) as nat,
            ),
            k >= 1 ==> first == base + y_walk(
                nodes,
                children[0],
                branch as int,
                base,
                (depth - 1) as nat,
            ).len() - 1,
        decreases n - k,
    {
        let child = &info.children[k];
        let ghost prev = y_walk_children(
            nodes,
            children.take(k as int),
            branch as int,
            base,
            (depth - 1) as nat,
        );
        proof {
            assert(children.take(k + 1).drop_last() =~= children.take(k as int));
            assert(children.take(k + 1).last() == child@);
            assert(children[k as int] == child@);
        }
        let ghost before = y_step_views(out@);
        y_walk_into(mindmap, child.as_str(), branch, Ghost((depth - 1) as nat), out);
        proof {
            lemma_y_walk_nonempty(nodes, child@, branch as int, base + prev.len(), (depth - 1) as nat);
            assert(y_step_views(out@) =~= start + (prev + y_walk(
                nodes,
                child@,
                branch as int,
                base + prev.len(),
                (depth - 1) as nat,
            )));
        }
        if k == 0 {
            first = out.len() - 1;
            proof {
                assert(prev.len() == 0);
            }
        }
        k = k + 1;
    }
    assert(children.take(n as int) =~= children);
    let last = out.len() - 1;
    let ghost before = out@;
    out.push(YStep::Parent { id: id.to_owned(), first, last });
    proof {
        let kids = y_walk_children(nodes, children, branch as int, base, (depth - 1) as nat);
        assert(y_step_views(out@) =~= y_step_views(before).push(
            YStepView::Parent { id: id@, first: first as int, last: last as int },
        ));
        assert(y_step_views(out@) =~= start + kids.push(
            YStepView::Parent { id: id@, first: first as int, last: last as int },
        ));
    }
}

/// The vertical centring steps of the xmind layout, walking each branch of
/// the root in order. The walk must end, that is no chain of children leads
/// back to a node it started from.
pub fn y_center_steps(mindmap: &MindmapData, root: &str) -> (steps: Vec<YStep>)
    requires
        exists|depth: nat| x_walk_bounded(mindmap.nodes@, root@, depth),
    ensures
        ({
            let depth = x_walk_depth(mindmap.nodes@, root@);
            y_step_views(steps@) == y_walk_branches(
                mindmap.nodes@,
                walk_children(mindmap.nodes@, root@),
                (depth - 1) as nat,
            )
        }),
        y_steps_centred(mindmap.nodes@, y_step_views(steps@), 0),
{
    let ghost nodes = mindmap.nodes@;
    let ghost depth = x_walk_depth(nodes, root@);
    let mut steps: Vec<YStep> = Vec::new();
    proof {
        lemma_mindmap_entry_index_in_bounds(nodes, root@);
    }
    let ghost branches = walk_children(nodes, root@);
    match mindmap_entry(mindmap, root) {
        None => {
            assert(y_step_views(steps@) =~= y_walk_branches(nodes, branches, (depth - 1) as nat));
        },
        Some(info) => {
            let n = info.children.len();
            let mut k: usize = 0;
            assert(branches.take(0) =~= Seq::<Seq<char>>::empty());
            assert(y_step_views(steps@) =~= Seq::<YStepView>::empty());
            while k < n
                invariant
                    n == info.children@.len(),
                    k <= n,
                    nodes == mindmap.nodes@,
                    branches == texts(info.children@),
                    forall|j: int|
                        0 <= j < info.children@.len() ==> x_walk_bounded(
                            nodes,
                            #[trigger] info.children@[j]@,
                            (depth - 1) as nat,
                        ),
                    y_step_views(steps@) == y_walk_branches(
                        nodes,
                        branches.take(k as int),
                        (depth - 1) as nat,
                    ),
                decreases n - k,
            {
                let child = &info.children[k];
                proof {
                    assert(branches.take(k + 1).drop_last() =~= branches.take(k as int));
                    assert(branches.take(k + 1).last() == child@);
                }
                y_walk_into(mindmap, child.as_str(), k, Ghost((depth - 1) as nat), &mut steps);
                k = k + 1;
            }
            assert(branches.take(n as int) =~= branches);
        },
    }
    proof {
        lemma_y_center_steps_centre_on_children(nodes, root@, depth);
    }
    steps
}

proof fn lemma_walk_children_bounded(nodes: Seq<MindmapNode>, id: Seq<char>, d: nat)
    requires
        x_walk_bounded(nodes, id, d),
    ensures
        forall|k: int|
            0 <= k < walk_children(nodes, id).len() ==> x_walk_bounded(
                nodes,
                #[trigger] walk_children(nodes, id)[k],
                (d - 1) as nat,
            ),
{
    lemma_mindmap_entry_index_in_bounds(nodes, id);
    if let Some(i) = mindmap_entry_index(nodes, id) {
        assert forall|k: int| 0 <= k < walk_children(nodes, id).len() implies x_walk_bounded(
            nodes,
            #[trigger] walk_children(nodes, id)[k],
            (d - 1) as nat,
        ) by {
            assert(walk_children(nodes, id)[k] == nodes[i].children@[k]@);
        }
    }
}

proof fn lemma_y_walk_depth_irrelevant(
    nodes: Seq<MindmapNode>,
    id: Seq<char>,
    branch: int,
    base: int,
    d1: nat,
    d2: nat,
)
    requires
        x_walk_bounded(nodes, id, d1),
        x_walk_bounded(nodes, id, d2),
    ensures
        y_walk(nodes, id, branch, base, d1) == y_walk(nodes, id, branch, base, d2),
    decreases d1, 0nat,
{
    let children = walk_children(nodes, id);
    lemma_walk_children_bounded(nodes, id, d1);
    lemma_walk_children_bounded(nodes, id, d2);
    if children.len() > 0 {
        lemma_y_walk_children_depth_irrelevant(
            nodes,
            children,
            branch,
            base,
            (d1 - 1) as nat,
            (d2 - 1) as nat,
        );
        lemma_y_walk_depth_irrelevant(nodes, children[0], branch, base, (d1 - 1) as nat, (d2 - 1) as nat);
    }
}

proof fn lemma_y_walk_children_depth_irrelevant(
    nodes: Seq<MindmapNode>,
    children: Seq<Seq<char>>,
    branch: int,
    base: int,
    d1: nat,
    d2: nat,
)
    requires
        forall|k: int|
            0 <= k < children.len() ==> x_walk_bounded(nodes, #[trigger] children[k], d1)
                && x_walk_bounded(nodes, children[k], d2),
    ensures
        y_walk_children(nodes, children, branch, base, d1) == y_walk_children(
            nodes,
            children,
            branch,
            base,
            d2,
        ),
    decreases d1, children.len(),
{
    if children.len() > 0 {
        let rest = children.drop_last();
        assert forall|k: int| 0 <= k < rest.len() implies x_walk_bounded(
            nodes,
            #[trigger] rest[k],
            d1,
        ) && x_walk_bounded(nodes, rest[k], d2) by {
            assert(rest[k] == children[k]);
        }
        lemma_y_walk_children_depth_irrelevant(nodes, rest, branch, base, d1, d2);
        let prev = y_walk_children(nodes, rest, branch, base, d1);
        assert(x_walk_bounded(nodes, children[children.len() - 1], d1));
        lemma_y_walk_depth_irrelevant(nodes, children.last(), branch, base + prev.len(), d1, d2);
    }
}

proof fn lemma_y_walk_branches_depth_irrelevant(
    nodes: Seq<MindmapNode>,
    branches: Seq<Seq<char>>,
    d1: nat,
    d2: nat,
)
    requires
        forall|k: int|
            0 <= k < branches.len() ==> x_walk_bounded(nodes, #[trigger] branches[k], d1)
                && x_walk_bounded(nodes, branches[k], d2),
    ensures
        y_walk_branches(nodes, branches, d1) == y_walk_branches(nodes, branches, d2),
    decreases branches.len(),
{
    if branches.len() > 0 {
        let rest = branches.drop_last();
        assert forall|k: int| 0 <= k < rest.len() implies x_walk_bounded(
            nodes,
            #[trigger] rest[k],
            d1,
        ) && x_walk_bounded(nodes, rest[k], d2) by {
            assert(rest[k] == branches[k]);
        }
        lemma_y_walk_branches_depth_irrelevant(nodes, rest, d1, d2);
        let prev = y_walk_branches(nodes, rest, d1);
        assert(x_walk_bounded(nodes, branches[branches.len() - 1], d1));
        lemma_y_walk_depth_irrelevant(
            nodes,
            branches.last(),
            branches.len() - 1,
            prev.len() as int,
            d1,
            d2,
        );
    }
}

/// The centring steps do not depend on the depth bound they are given:
/// any two bounds within which the walk from the root ends give the same
/// steps.
pub proof fn lemma_y_center_steps_depth_irrelevant(nodes: Seq<MindmapNode>, root: Seq<char>, d1: nat, d2: nat)
    requires
        x_walk_bounded(nodes, root, d1),
        x_walk_bounded(nodes, root, d2),
    ensures
        y_walk_branches(nodes, walk_children(nodes, root), (d1 - 1) as nat) == y_walk_branches(
            nodes,
            walk_children(nodes, root),
            (d2 - 1) as nat,
        ),
{
    lemma_walk_children_bounded(nodes, root, d1);
    lemma_walk_children_bounded(nodes, root, d2);
    lemma_y_walk_branches_depth_irrelevant(
        nodes,
        walk_children(nodes, root),
        (d1 - 1) as nat,
        (d2 - 1) as nat,
    );
}

/// `steps` places every child of `p` that has an entry right of `p`, with
/// the gap the child's level calls for.
pub open spec fn places_children_of(nodes: Seq<MindmapNode>, steps: Seq<XStepView>, p: Seq<char>) -> bool {
    forall|k: int|
        0 <= k < walk_children(nodes, p).len() ==> (mindmap_entry_index(
            nodes,
            #[trigger] walk_children(nodes, p)[k],
        ) matches Some(j) ==> steps.contains(
            XStepView { child: walk_children(nodes, p)[k], parent: p, gap: child_gap(nodes[j].level) },
        ))
}

proof fn lemma_places_children_grow(
    nodes: Seq<MindmapNode>,
    a: Seq<XStepView>,
    b: Seq<XStepView>,
    p: Seq<char>,
)
    requires
        places_children_of(nodes, a, p),
    ensures
        places_children_of(nodes, a + b, p),
        places_children_of(nodes, b + a, p),
{
    assert forall|x: XStepView| a.contains(x) implies (a + b).contains(x) && (b + a).contains(x) by {
        let i = choose|i: int| 0 <= i < a.len() && a[i] == x;
        assert((a + b)[i] == x);
        assert((b + a)[b.len() + i] == x);
    }
}

/// Every step of `steps` placed a node whose own children are placed in
/// `steps` too.
pub open spec fn walk_closed(nodes: Seq<MindmapNode>, steps: Seq<XStepView>) -> bool {
    forall|j: int| 0 <= j < steps.len() ==> places_children_of(nodes, steps, #[trigger] steps[j].child)
}

proof fn lemma_walk_closed_concat(
    nodes: Seq<MindmapNode>,
    a: Seq<XStepView>,
    b: Seq<XStepView>,
)
    requires
        walk_closed(nodes, a),
        walk_closed(nodes, b),
    ensures
        walk_closed(nodes, a + b),
{
    assert forall|j: int| 0 <= j < (a + b).len() implies places_children_of(
        nodes,
        a + b,
        #[trigger] (a + b)[j].child,
    ) by {
        if j < a.len() {
            assert((a + b)[j] == a[j]);
            lemma_places_children_grow(nodes, a, b, a[j].child);
        } else {
            assert((a + b)[j] == b[j - a.len()]);
            lemma_places_children_grow(nodes, b, a, b[j - a.len()].child);
        }
    }
}

/// The horizontal walk is complete: it places every child (with an entry)
/// of the node it starts from, and whenever it places a node it also places
/// every child (with an entry) of that node, at any level of the tree.
pub proof fn lemma_x_walk_complete(nodes: Seq<MindmapNode>, id: Seq<char>, depth: nat)
    requires
        x_walk_bounded(nodes, id, depth),
    ensures
        places_children_of(nodes, x_walk(nodes, id, depth), id),
        walk_closed(nodes, x_walk(nodes, id, depth)),
    decreases depth, 0nat,
{
    lemma_mindmap_entry_index_in_bounds(nodes, id);
    lemma_walk_children_bounded(nodes, id, depth);
    match mindmap_entry_index(nodes, id) {
        None => {},
        Some(i) => {
            let children = texts(nodes[i].children@);
            assert(children == walk_children(nodes, id));
            lemma_x_walk_children_complete(nodes, id, children, (depth - 1) as nat);
        },
    }
}

proof fn lemma_x_walk_children_complete(
    nodes: Seq<MindmapNode>,
    parent: Seq<char>,
    children: Seq<Seq<char>>,
    depth: nat,
)
    requires
        forall|k: int| 0 <= k < children.len() ==> x_walk_bounded(nodes, #[trigger] children[k], depth),
    ensures
        forall|k: int|
            0 <= k < children.len() ==> (mindmap_entry_index(nodes, #[trigger] children[k]) matches Some(
                j,
            ) ==> x_walk_children(nodes, parent, children, depth).contains(
                XStepView { child: children[k], parent: parent, gap: child_gap(nodes[j].level) },
            )),
        walk_closed(nodes, x_walk_children(nodes, parent, children, depth)),
    decreases depth, children.len(),
{
    if children.len() > 0 {
        let rest = children.drop_last();
        let c = children.last();
        assert forall|k: int| 0 <= k < rest.len() implies x_walk_bounded(
            nodes,
            #[trigger] rest[k],
            depth,
        ) by {
            assert(rest[k] == children[k]);
        }
        lemma_x_walk_children_complete(nodes, parent, rest, depth);
        assert(x_walk_bounded(nodes, children[children.len() - 1], depth));
        lemma_x_walk_complete(nodes, c, depth);
        let r = x_walk_children(nodes, parent, rest, depth);
        let own = match mindmap_entry_index(nodes, c) {
            Some(j) => seq![XStepView { child: c, parent: parent, gap: child_gap(nodes[j].level) }],
            None => Seq::<XStepView>::empty(),
        };
        let w = x_walk(nodes, c, depth);
        let all = x_walk_children(nodes, parent, children, depth);
        assert(all == r + own + w);
        assert(forall|j: int| 0 <= j < own.len() ==> (#[trigger] own[j]).child == c);
        assert forall|j: int| 0 <= j < all.len() implies places_children_of(
            nodes,
            all,
            #[trigger] all[j].child,
        ) by {
            if j < r.len() {
                assert(all[j] == r[j]);
                lemma_places_children_grow(nodes, r, own + w, r[j].child);
                assert(r + (own + w) =~= all);
            } else if j < r.len() + own.len() {
                assert(all[j] == own[j - r.len()]);
                lemma_places_children_grow(nodes, w, r + own, c);
                assert((r + own) + w =~= all);
            } else {
                assert(all[j] == w[j - r.len() - own.len()]);
                lemma_places_children_grow(nodes, w, r + own, w[j - r.len() - own.len()].child);
                assert((r + own) + w =~= all);
            }
        }
        assert forall|k: int|
            0 <= k < children.len() implies (mindmap_entry_index(nodes, #[trigger] children[k]) matches Some(
            j,
        ) ==> all.contains(
            XStepView { child: children[k], parent: parent, gap: child_gap(nodes[j].level) },
        )) by {
            if let Some(j) = mindmap_entry_index(nodes, children[k]) {
                let x = XStepView { child: children[k], parent: parent, gap: child_gap(nodes[j].level) };
                if k < rest.len() {
                    assert(rest[k] == children[k]);
                    assert(r.contains(x));
                    let i = choose|i: int| 0 <= i < r.len() && r[i] == x;
                    assert(all[i] == x);
                } else {
                    assert(own[0] == x);
                    assert(all[r.len() as int] == x);
                }
            }
        }
    }
}

/// The node a centring step places.
pub open spec fn y_step_id(v: YStepView) -> Seq<char> {
    match v {
        YStepView::Leaf { id, .. } => id,
        YStepView::Parent { id, .. } => id,
    }
}

/// Steps numbered from `base` centre correctly: a leaf is a node without
/// children, and a parent refers back to earlier steps, the step of its
/// first child and the step of its last child.
pub open spec fn y_steps_centred(nodes: Seq<MindmapNode>, steps: Seq<YStepView>, base: int) -> bool {
    forall|p: int|
        0 <= p < steps.len() ==> match #[trigger] steps[p] {
            YStepView::Leaf { id, .. } => walk_children(nodes, id).len() == 0,
            YStepView::Parent { id, first, last } => {
                let c = walk_children(nodes, id);
                &&& c.len() > 0
                &&& base <= first <= last < base + p
                &&& y_step_id(steps[first - base]) == c[0]
                &&& y_step_id(steps[last - base]) == c.last()
            },
        }
}

/// Every leaf step lies in branch `branch`.
pub open spec fn y_leaves_in_branch(steps: Seq<YStepView>, branch: int) -> bool {
    forall|p: int|
        0 <= p < steps.len() ==> (#[trigger] steps[p] matches YStepView::Leaf { branch: b, .. } ==> b
            == branch)
}

proof fn lemma_y_centred_concat(nodes: Seq<MindmapNode>, a: Seq<YStepView>, b: Seq<YStepView>, base: int)
    requires
        y_steps_centred(nodes, a, base),
        y_steps_centred(nodes, b, base + a.len()),
    ensures
        y_steps_centred(nodes, a + b, base),
{
    let ab = a + b;
    assert forall|p: int| 0 <= p < ab.len() implies match #[trigger] ab[p] {
        YStepView::Leaf { id, .. } => walk_children(nodes, id).len() == 0,
        YStepView::Parent { id, first, last } => {
            let c = walk_children(nodes, id);
            &&& c.len() > 0
            &&& base <= first <= last < base + p
            &&& y_step_id(ab[first - base]) == c[0]
            &&& y_step_id(ab[last - base]) == c.last()
        },
    } by {
        if p < a.len() {
            assert(ab[p] == a[p]);
            if let YStepView::Parent { id, first, last } = a[p] {
                assert(ab[first - base] == a[first - base]);
                assert(ab[last - base] == a[last - base]);
            }
        } else {
            let q = p - a.len();
            assert(ab[p] == b[q]);
            if let YStepView::Parent { id, first, last } = b[q] {
                assert(ab[first - base] == b[first - (base + a.len())]);
                assert(ab[last - base] == b[last - (base + a.len())]);
            }
        }
    }
}

proof fn lemma_y_walk_centred(
    nodes: Seq<MindmapNode>,
    id: Seq<char>,
    branch: int,
    base: int,
    depth: nat,
)
    requires
        x_walk_bounded(nodes, id, depth),
    ensures
        ({
            let w = y_walk(nodes, id, branch, base, depth);
            &&& y_steps_centred(nodes, w, base)
            &&& y_leaves_in_branch(w, branch)
            &&& w.len() > 0
            &&& y_step_id(w.last()) == id
        }),
    decreases depth, 0nat,
{
    let children = walk_children(nodes, id);
    lemma_walk_children_bounded(nodes, id, depth);
    let w = y_walk(nodes, id, branch, base, depth);
    if children.len() == 0 {
        assert(w == seq![YStepView::Leaf { id: id, branch: branch }]);
    } else {
        let d = (depth - 1) as nat;
        lemma_y_walk_children_centred(nodes, children, branch, base, d);
        lemma_y_walk_centred(nodes, children[0], branch, base, d);
        let kids = y_walk_children(nodes, children, branch, base, d);
        let w0 = y_walk(nodes, children[0], branch, base, d);
        let parent = YStepView::Parent {
            id: id,
            first: base + w0.len() - 1,
            last: base + kids.len() - 1,
        };
        assert(w == kids.push(parent));
        assert forall|p: int| 0 <= p < w.len() implies match #[trigger] w[p] {
            YStepView::Leaf { id, .. } => walk_children(nodes, id).len() == 0,
            YStepView::Parent { id, first, last } => {
                let c = walk_children(nodes, id);
                &&& c.len() > 0
                &&& base <= first <= last < base + p
                &&& y_step_id(w[first - base]) == c[0]
                &&& y_step_id(w[last - base]) == c.last()
            },
        } by {
            if p < kids.len() {
                assert(w[p] == kids[p]);
                if let YStepView::Parent { id, first, last } = kids[p] {
                    assert(w[first - base] == kids[first - base]);
                    assert(w[last - base] == kids[last - base]);
                }
            } else {
                assert(w[p] == parent);
                assert(w[w0.len() - 1] == kids[w0.len() - 1]);
                assert(w[kids.len() - 1] == kids.last());
            }
        }
        assert forall|p: int| 0 <= p < w.len() implies (#[trigger] w[p] matches YStepView::Leaf {
            branch: b,
            ..
        } ==> b == branch) by {
            if p < kids.len() {
                assert(w[p] == kids[p]);
            }
        }
    }
}

proof fn lemma_y_walk_children_centred(
    nodes: Seq<MindmapNode>,
    children: Seq<Seq<char>>,
    branch: int,
    base: int,
    depth: nat,
)
    requires
        forall|k: int| 0 <= k < children.len() ==> x_walk_bounded(nodes, #[trigger] children[k], depth),
    ensures
        ({
            let kids = y_walk_children(nodes, children, branch, base, depth);
            &&& y_steps_centred(nodes, kids, base)
            &&& y_leaves_in_branch(kids, branch)
            &&& children.len() > 0 ==> {
                let w0 = y_walk(nodes, children[0], branch, base, depth);
                &&& 0 < w0.len() <= kids.len()
                &&& y_step_id(kids[w0.len() - 1]) == children[0]
                &&& y_step_id(kids.last()) == children.last()
            }
        }),
    decreases depth, children.len(),
{
    if children.len() > 0 {
        let rest = children.drop_last();
        assert forall|k: int| 0 <= k < rest.len() implies x_walk_bounded(
            nodes,
            #[trigger] rest[k],
            depth,
        ) by {
            assert(rest[k] == children[k]);
        }
        lemma_y_walk_children_centred(nodes, rest, branch, base, depth);
        let prev = y_walk_children(nodes, rest, branch, base, depth);
        assert(x_walk_bounded(nodes, children[children.len() - 1], depth));
        lemma_y_walk_centred(nodes, children.last(), branch, base + prev.len(), depth);
        let w = y_walk(nodes, children.last(), branch, base + prev.len(), depth);
        let kids = y_walk_children(nodes, children, branch, base, depth);
        assert(kids == prev + w);
        lemma_y_centred_concat(nodes, prev, w, base);
        assert forall|p: int| 0 <= p < kids.len() implies (#[trigger] kids[p] matches YStepView::Leaf {
            branch: b,
            ..
        } ==> b == branch) by {
            if p < prev.len() {
                assert(kids[p] == prev[p]);
            } else {
                assert(kids[p] == w[p - prev.len()]);
            }
        }
        assert(kids.last() == w.last());
        assert(x_walk_bounded(nodes, children[0], depth));
        lemma_y_walk_centred(nodes, children[0], branch, base, depth);
        let w0 = y_walk(nodes, children[0], branch, base, depth);
        if rest.len() == 0 {
            assert(prev.len() == 0);
            assert(kids =~= w);
        } else {
            assert(rest[0] == children[0]);
            assert(kids[w0.len() - 1] == prev[w0.len() - 1]);
        }
    }
}

/// The centring steps centre each parent between its own first and last
/// child: every parent step refers back to the steps that placed exactly
/// those two children, every leaf step places a node without children, the
/// leaves of the root's branch number `b` carry `b`, and branches come in
/// order.
pub proof fn lemma_y_center_steps_centre_on_children(nodes: Seq<MindmapNode>, root: Seq<char>, depth: nat)
    requires
        x_walk_bounded(nodes, root, depth),
    ensures
        ({
            let branches = walk_children(nodes, root);
            let steps = y_walk_branches(nodes, branches, (depth - 1) as nat);
            &&& y_steps_centred(nodes, steps, 0)
            &&& forall|p: int|
                0 <= p < steps.len() ==> (#[trigger] steps[p] matches YStepView::Leaf {
                    branch: b,
                    ..
                } ==> 0 <= b < branches.len())
            &&& forall|p: int, q: int|
                0 <= p < q < steps.len() ==> (#[trigger] steps[p] matches YStepView::Leaf {
                    branch: bp,
                    ..
                } ==> (#[trigger] steps[q] matches YStepView::Leaf { branch: bq, .. } ==> bp <= bq))
        }),
{
    lemma_walk_children_bounded(nodes, root, depth);
    lemma_y_walk_branches_centred(nodes, walk_children(nodes, root), (depth - 1) as nat);
}

proof fn lemma_y_walk_branches_centred(nodes: Seq<MindmapNode>, branches: Seq<Seq<char>>, depth: nat)
    requires
        forall|k: int| 0 <= k < branches.len() ==> x_walk_bounded(nodes, #[trigger] branches[k], depth),
    ensures
        ({
            let steps = y_walk_branches(nodes, branches, depth);
            &&& y_steps_centred(nodes, steps, 0)
            &&& forall|p: int|
                0 <= p < steps.len() ==> (#[trigger] steps[p] matches YStepView::Leaf {
                    branch: b,
                    ..
                } ==> 0 <= b < branches.len())
            &&& forall|p: int, q: int|
                0 <= p < q < steps.len() ==> (#[trigger] steps[p] matches YStepView::Leaf {
                    branch: bp,
                    ..
                } ==> (#[trigger] steps[q] matches YStepView::Leaf { branch: bq, .. } ==> bp <= bq))
        }),
    decreases branches.len(),
{
    if branches.len() > 0 {
        let rest = branches.drop_last();
        assert forall|k: int| 0 <= k < rest.len() implies x_walk_bounded(
            nodes,
            #[trigger] rest[k],
            depth,
        ) by {
            assert(rest[k] == branches[k]);
        }
        lemma_y_walk_branches_centred(nodes, rest, depth);
        let prev = y_walk_branches(nodes, rest, depth);
        let nb = branches.len() - 1;
        assert(x_walk_bounded(nodes, branches[nb], depth));
        lemma_y_walk_centred(nodes, branches.last(), nb, prev.len() as int, depth);
        let w = y_walk(nodes, branches.last(), nb, prev.len() as int, depth);
        let steps = y_walk_branches(nodes, branches, depth);
        assert(steps == prev + w);
        lemma_y_centred_concat(nodes, prev, w, 0);
        assert forall|p: int|
            0 <= p < steps.len() implies (#[trigger] steps[p] matches YStepView::Leaf {
            branch: b,
            ..
        } ==> 0 <= b < branches.len()) by {
            if p < prev.len() {
                assert(steps[p] == prev[p]);
            } else {
                assert(steps[p] == w[p - prev.len()]);
            }
        }
        assert forall|p: int, q: int|
            0 <= p < q < steps.len() implies (#[trigger] steps[p] matches YStepView::Leaf {
            branch: bp,
            ..
        } ==> (#[trigger] steps[q] matches YStepView::Leaf { branch: bq, .. } ==> bp <= bq)) by {
            if q < prev.len() {
                assert(steps[p] == prev[p]);
                assert(steps[q] == prev[q]);
            } else if p < prev.len() {
                assert(steps[p] == prev[p]);
                assert(steps[q] == w[q - prev.len()]);
            } else {
                assert(steps[p] == w[p - prev.len()]);
                assert(steps[q] == w[q - prev.len()]);
            }
        }
    }
}

} // verus!
