//! Composition of one printable chat line.
//!
//! The author name is painted with the resolved color, the rewritten
//! message body is trimmed and appended, and the line is decoded with a
//! lossy UTF-8 recovery policy: injected escape bytes are not valid
//! UTF-8 on their own, so the final decode must never fail hard. A
//! message whose body is empty after trimming is suppressed, as is any
//! message from a known bot author.

use vstd::prelude::*;
use crate::color::TerminalColor;
use crate::color::hint_model;
use crate::color::resolve;
use crate::color::resolve_spec;

verus! {

/// True of the ASCII whitespace bytes: space, tab, line feed, vertical
/// tab, form feed, carriage return.
pub open spec fn is_ws(b: u8) -> bool {
    b == 32 || (9 <= b && b <= 13)
}

/// Whether `b` is an ASCII whitespace byte.
fn ws_byte(b: u8) -> (r: bool)
    ensures
        r == is_ws(b),
{
    b == 32 || (9 <= b && b <= 13)
}

/// The byte string with leading and trailing whitespace removed.
pub open spec fn trim_spec(s: Seq<u8>) -> Seq<u8>
    decreases s.len(),
{
    if s.len() == 0 {
        s
    } else if is_ws(s[0]) {
        trim_spec(s.skip(1))
    } else if is_ws(s.last()) {
        trim_spec(s.drop_last())
    } else {
        s
    }
}

/// `trim_spec` keeps exactly the window from the first to the last
/// non-whitespace byte.
proof fn lemma_trim_window(s: Seq<u8>, lo: int, hi: int)
    requires
        0 <= lo <= hi <= s.len(),
        forall|i: int| 0 <= i < lo ==> is_ws(s[i]),
        forall|i: int| hi <= i < s.len() ==> is_ws(s[i]),
        lo < hi ==> !is_ws(s[lo]) && !is_ws(s[hi - 1]),
    ensures
        trim_spec(s) == s.subrange(lo, hi),
    decreases s.len(),
{
    if s.len() == 0 {
        assert(trim_spec(s) =~= s.subrange(lo, hi));
    } else if lo > 0 {
        assert(is_ws(s[0]));
        lemma_trim_window(s.skip(1), lo - 1, hi - 1);
        assert(s.skip(1).subrange(lo - 1, hi - 1) =~= s.subrange(lo, hi));
    } else if lo == hi {
        assert(is_ws(s[0]));
        lemma_trim_window(s.skip(1), 0, 0);
        assert(s.skip(1).subrange(0, 0) =~= s.subrange(lo, hi));
    } else if hi < s.len() {
        assert(is_ws(s.last()));
        assert(!is_ws(s[0]));
        lemma_trim_window(s.drop_last(), lo, hi);
        assert(s.drop_last().subrange(lo, hi) =~= s.subrange(lo, hi));
    } else {
        assert(!is_ws(s[0]) && !is_ws(s.last()));
        assert(trim_spec(s) == s);
        assert(s.subrange(0, s.len() as int) =~= s);
    }
}

/// Removes leading and trailing whitespace bytes.
pub fn trim_bytes(s: &Vec<u8>) -> (out: Vec<u8>)
    ensures
        out@ == trim_spec(s@),
{
    let mut lo: usize = 0;
    while lo < s.len() && ws_byte(s[lo])
        invariant
            lo <= s@.len(),
            forall|i: int| 0 <= i < lo ==> is_ws(s@[i]),
        decreases s@.len() - lo,
    {
        lo += 1;
    }
    if lo == s.len() {
        proof {
            lemma_trim_window(s@, lo as int, lo as int);
            assert(s@.subrange(lo as int, lo as int) =~= Seq::<u8>::empty());
        }
        return Vec::new();
    }
    let mut hi: usize = s.len();
    while hi > lo && ws_byte(s[hi - 1])
        invariant
            lo <= hi <= s@.len(),
            forall|i: int| hi <= i < s@.len() ==> is_ws(s@[i]),
        decreases hi,
    {
        hi -= 1;
    }
    assert(!is_ws(s@[lo as int]));
    assert(hi > lo && !is_ws(s@[hi - 1]));
    proof {
        lemma_trim_window(s@, lo as int, hi as int);
    }
    let mut out: Vec<u8> = Vec::new();
    let mut i: usize = lo;
    while i < hi
        invariant
            lo <= i <= hi <= s@.len(),
            out@ == s@.subrange(lo as int, i as int),
        decreases hi - i,
    {
        out.push(s[i]);
        assert(out@ =~= s@.subrange(lo as int, i + 1));
        i += 1;
    }
    out
}

/// The five known bot author names, as byte strings.
pub open spec fn bot_names() -> Seq<Seq<u8>> {
    seq![
        seq![102u8, 117, 110, 116, 111, 111, 110],
        seq![98u8, 111, 116, 102, 114, 111, 98, 98, 101, 114],
        seq![99u8, 121, 110, 97, 110, 98, 111, 116],
        seq![110u8, 105, 103, 104, 116, 98, 111, 116],
        seq![115u8, 116, 114, 101, 97, 109, 101, 108, 101, 109, 101, 110, 116, 115],
    ]
}

/// True when the author name stands on the bot denylist.
pub open spec fn author_denied(name: Seq<u8>) -> bool {
    exists|i: int| 0 <= i < bot_names().len() && bot_names()[i] == name
}

/// Whether `name` equals `lit`, byte for byte.
fn bytes_eq(name: &Vec<u8>, lit: &Vec<u8>) -> (b: bool)
    ensures
        b == (name@ == lit@),
{
    if name.len() != lit.len() {
        return false;
    }
    let mut i: usize = 0;
    while i < name.len()
        invariant
            i <= name@.len(),
            name@.len() == lit@.len(),
            forall|j: int| 0 <= j < i ==> name@[j] == lit@[j],
        decreases name@.len() - i,
    {
        if name[i] != lit[i] {
            return false;
        }
        i += 1;
    }
    assert(name@ =~= lit@);
    true
}

/// The denylisted author names, in the order of `bot_names`.
fn build_bot_names() -> (v: Vec<Vec<u8>>)
    ensures
        v@.len() == bot_names().len(),
        forall|i: int| 0 <= i < v@.len() ==> (#[trigger] v@[i])@ == bot_names()[i],
{
    let mut a: Vec<u8> = Vec::new();
    a.push(102);
    a.push(117);
    a.push(110);
    a.push(116);
    a.push(111);
    a.push(111);
    a.push(110);
    assert(a@ =~= bot_names()[0]);
    let mut b: Vec<u8> = Vec::new();
    b.push(98);
    b.push(111);
    b.push(116);
    b.push(102);
    b.push(114);
    b.push(111);
    b.push(98);
    b.push(98);
    b.push(101);
    b.push(114);
    assert(b@ =~= bot_names()[1]);
    let mut c: Vec<u8> = Vec::new();
    c.push(99);
    c.push(121);
    c.push(110);
    c.push(97);
    c.push(110);
    c.push(98);
    c.push(111);
    c.push(116);
    assert(c@ =~= bot_names()[2]);
    let mut d: Vec<u8> = Vec::new();
    d.push(110);
    d.push(105);
    d.push(103);
    d.push(104);
    d.push(116);
    d.push(98);
    d.push(111);
    d.push(116);
    assert(d@ =~= bot_names()[3]);
    let mut e: Vec<u8> = Vec::new();
    e.push(115);
    e.push(116);
    e.push(114);
    e.push(101);
    e.push(97);
    e.push(109);
    e.push(101);
    e.push(108);
    e.push(101);
    e.push(109);
    e.push(101);
    e.push(110);
    e.push(116);
    e.push(115);
    assert(e@ =~= bot_names()[4]);
    let mut v: Vec<Vec<u8>> = Vec::new();
    v.push(a);
    v.push(b);
    v.push(c);
    v.push(d);
    v.push(e);
    v
}

/// Whether a message from this author is admitted: true unless the
/// author stands on the bot denylist.
pub fn admit_author(name: &Vec<u8>) -> (b: bool)
    ensures
        b == !author_denied(name@),
{
    let bots = build_bot_names();
    let mut i: usize = 0;
    while i < bots.len()
        invariant
            i <= bots@.len(),
            bots@.len() == bot_names().len(),
            forall|k: int| 0 <= k < bots@.len() ==> (#[trigger] bots@[k])@ == bot_names()[k],
            forall|k: int| 0 <= k < i ==> bot_names()[k] != name@,
        decreases bots@.len() - i,
    {
        if bytes_eq(name, &bots[i]) {
            assert(author_denied(name@));
            return false;
        }
        i += 1;
    }
    assert(!author_denied(name@));
    true
}

/// Decimal digits of `n`, most significant first, no leading zeros.
pub open spec fn dec_bytes(n: u8) -> Seq<u8> {
    if n < 10 {
        seq![(48 + n) as u8]
    } else if n < 100 {
        seq![(48 + n / 10) as u8, (48 + n % 10) as u8]
    } else {
        seq![(48 + n / 100) as u8, (48 + (n / 10) % 10) as u8, (48 + n % 10) as u8]
    }
}

/// The ANSI escape that sets the foreground color:
/// `ESC [ 38;2;r;g;b m` for an RGB triple, `ESC [ 38;5;n m` for an
/// indexed color.
pub open spec fn color_prefix_spec(c: TerminalColor) -> Seq<u8> {
    match c {
        TerminalColor::Rgb(r, g, b) => seq![27u8, 91, 51, 56, 59, 50, 59] + dec_bytes(r)
            + seq![59u8] + dec_bytes(g) + seq![59u8] + dec_bytes(b) + seq![109u8],
        TerminalColor::Indexed(n) => seq![27u8, 91, 51, 56, 59, 53, 59] + dec_bytes(n)
            + seq![109u8],
    }
}

/// The ANSI escape that resets the style: `ESC [ 0 m`.
pub open spec fn color_suffix_spec() -> Seq<u8> {
    seq![27u8, 91, 48, 109]
}

/// Relies on ansi_term's `Colour::prefix`: displayed, a foreground
/// color style's prefix is `ESC [ 38;2;r;g;b m` for an RGB color and
/// `ESC [ 38;5;n m` for a fixed palette color, components in decimal.
#[verifier::external_body]
fn ansi_color_prefix(c: &TerminalColor) -> (r: Vec<u8>)
    ensures
        r@ == color_prefix_spec(*c),
{
    let col = match c {
        TerminalColor::Rgb(r, g, b) => ansi_term::Colour::RGB(*r, *g, *b),
        TerminalColor::Indexed(n) => ansi_term::Colour::Fixed(*n),
    };
    format!("{}", col.prefix()).into_bytes()
}

/// Relies on ansi_term's `Colour::suffix`: displayed, a colored style's
/// suffix is the reset escape `ESC [ 0 m`.
#[verifier::external_body]
fn ansi_color_suffix() -> (r: Vec<u8>)
    ensures
        r@ == color_suffix_spec(),
{
    format!("{}", ansi_term::Colour::White.suffix()).into_bytes()
}

/// The sequence with its leading whitespace bytes removed.
pub open spec fn skip_ws(s: Seq<u8>) -> Seq<u8>
    decreases s.len(),
{
    if s.len() > 0 && is_ws(s[0]) {
        skip_ws(s.skip(1))
    } else {
        s
    }
}

/// Length of the leading run of non-whitespace bytes.
pub open spec fn word_len(s: Seq<u8>) -> int
    decreases s.len(),
{
    if s.len() > 0 && !is_ws(s[0]) {
        1 + word_len(s.skip(1))
    } else {
        0
    }
}

/// `skip_ws` returns a suffix no longer than the input.
proof fn lemma_skip_ws_len(s: Seq<u8>)
    ensures
        skip_ws(s).len() <= s.len(),
        skip_ws(s).len() > 0 ==> !is_ws(skip_ws(s)[0]),
    decreases s.len(),
{
    if s.len() > 0 && is_ws(s[0]) {
        lemma_skip_ws_len(s.skip(1));
    }
}

/// The leading word is within bounds and nonempty when the first byte
/// is not whitespace.
proof fn lemma_word_len_bounds(s: Seq<u8>)
    ensures
        0 <= word_len(s) <= s.len(),
        s.len() > 0 && !is_ws(s[0]) ==> word_len(s) >= 1,
    decreases s.len(),
{
    if s.len() > 0 && !is_ws(s[0]) {
        lemma_word_len_bounds(s.skip(1));
    }
}

/// The words of a byte sequence: the maximal runs of non-whitespace
/// bytes, in order.
pub open spec fn words_of(s: Seq<u8>) -> Seq<Seq<u8>>
    decreases s.len(),
    via words_of_decreases
{
    let t = skip_ws(s);
    if t.len() == 0 {
        Seq::empty()
    } else {
        seq![t.take(word_len(t))] + words_of(t.skip(word_len(t)))
    }
}

#[via_fn]
proof fn words_of_decreases(s: Seq<u8>) {
    lemma_skip_ws_len(s);
    let t = skip_ws(s);
    lemma_word_len_bounds(t);
}

/// `words_of` sees only what stands after the leading whitespace.
proof fn lemma_words_of_skip_ws(s: Seq<u8>)
    ensures
        words_of(s) == words_of(skip_ws(s)),
    decreases s.len(),
{
    if s.len() > 0 && is_ws(s[0]) {
        lemma_words_of_skip_ws(s.skip(1));
    }
}

/// The leading word runs up to the first whitespace byte.
proof fn lemma_word_len_window(s: Seq<u8>, k: int)
    requires
        0 <= k <= s.len(),
        forall|i: int| 0 <= i < k ==> !is_ws(s[i]),
        k < s.len() ==> is_ws(s[k]),
    ensures
        word_len(s) == k,
    decreases k,
{
    if k > 0 {
        lemma_word_len_window(s.skip(1), k - 1);
    }
}

/// Views of a vector of words.
pub open spec fn word_views(v: Seq<Vec<u8>>) -> Seq<Seq<u8>> {
    v.map_values(|w: Vec<u8>| w@)
}

/// Splits a byte string into its whitespace-separated words.
fn split_words(s: &Vec<u8>) -> (out: Vec<Vec<u8>>)
    ensures
        word_views(out@) == words_of(s@),
{
    let mut out: Vec<Vec<u8>> = Vec::new();
    let mut pos: usize = 0;
    assert(s@.skip(0) =~= s@);
    assert(word_views(out@) + words_of(s@) =~= words_of(s@));
    while pos < s.len()
        invariant
            pos <= s@.len(),
            words_of(s@) == word_views(out@) + words_of(s@.skip(pos as int)),
        decreases s@.len() - pos,
    {
        if ws_byte(s[pos]) {
            proof {
                assert(s@.skip(pos as int).skip(1) =~= s@.skip(pos + 1));
                assert(skip_ws(s@.skip(pos as int)) == skip_ws(s@.skip(pos + 1)));
                lemma_words_of_skip_ws(s@.skip(pos as int));
                lemma_words_of_skip_ws(s@.skip(pos + 1));
            }
            pos += 1;
        } else {
            let ghost t = s@.skip(pos as int);
            assert(skip_ws(t) == t);
            let start = pos;
            let mut w: Vec<u8> = Vec::new();
            assert(w@ =~= s@.subrange(start as int, pos as int));
            while pos < s.len() && !ws_byte(s[pos])
                invariant
                    start <= pos <= s@.len(),
                    w@ == s@.subrange(start as int, pos as int),
                    forall|i: int| start <= i < pos ==> !is_ws(s@[i]),
                decreases s@.len() - pos,
            {
                w.push(s[pos]);
                assert(w@ =~= s@.subrange(start as int, pos + 1));
                pos += 1;
            }
            proof {
                assert forall|i: int| 0 <= i < pos - start implies !is_ws(t[i]) by {
                    assert(t[i] == s@[start + i]);
                }
                if pos < s@.len() {
                    assert(t[pos - start] == s@[pos as int]);
                }
                lemma_word_len_window(t, pos - start);
                assert(t.take(pos - start) =~= w@);
                assert(t.skip(pos - start) =~= s@.skip(pos as int));
                assert(words_of(t) == seq![w@] + words_of(s@.skip(pos as int)));
            }
            let ghost before = word_views(out@);
            out.push(w);
            assert(word_views(out@) =~= before.push(w@));
            assert(word_views(out@) + words_of(s@.skip(pos as int)) =~= words_of(s@));
        }
    }
    assert(s@.skip(s@.len() as int) =~= Seq::<u8>::empty());
    assert(words_of(s@.skip(s@.len() as int)).len() == 0);
    assert(word_views(out@) =~= words_of(s@));
    out
}

/// The words after the first, each preceded by a space when it fits on
/// the current line and by a line break otherwise; `cur` is the length
/// of the line so far.
pub open spec fn greedy_tail(ws: Seq<Seq<u8>>, width: int, cur: int) -> Seq<u8>
    decreases ws.len(),
{
    if ws.len() == 0 {
        Seq::empty()
    } else if cur + 1 + ws[0].len() <= width {
        seq![32u8] + ws[0] + greedy_tail(ws.skip(1), width, cur + 1 + ws[0].len())
    } else {
        seq![10u8] + ws[0] + greedy_tail(ws.skip(1), width, ws[0].len() as int)
    }
}

/// The byte string reflowed to `width` by greedy word wrap: breaks fall
/// only at whitespace, never inside a word or an escape sequence; a
/// word longer than the width stands on a line of its own.
pub open spec fn wrap_spec(s: Seq<u8>, width: int) -> Seq<u8> {
    let ws = words_of(s);
    if ws.len() == 0 {
        Seq::empty()
    } else {
        ws[0] + greedy_tail(ws.skip(1), width, ws[0].len() as int)
    }
}

/// Appends all bytes of `w` to `out`.
fn push_all(out: &mut Vec<u8>, w: &Vec<u8>)
    ensures
        final(out)@ == old(out)@ + w@,
{
    let mut k: usize = 0;
    assert(out@ =~= old(out)@ + w@.subrange(0, 0));
    while k < w.len()
        invariant
            k <= w@.len(),
            out@ == old(out)@ + w@.subrange(0, k as int),
        decreases w@.len() - k,
    {
        out.push(w[k]);
        assert(out@ =~= old(out)@ + w@.subrange(0, k + 1));
        k += 1;
    }
    assert(w@.subrange(0, w@.len() as int) =~= w@);
}

/// Reflows the byte string to the given width by greedy word wrap.
pub fn wrap_bytes(s: &Vec<u8>, width: usize) -> (out: Vec<u8>)
    ensures
        out@ == wrap_spec(s@, width as int),
{
    let words = split_words(s);
    let ghost wv = word_views(words@);
    if words.len() == 0 {
        return Vec::new();
    }
    let mut out: Vec<u8> = Vec::new();
    push_all(&mut out, &words[0]);
    let mut cur: usize = words[0].len();
    let mut i: usize = 1;
    while i < words.len()
        invariant
            1 <= i <= words@.len(),
            wv == word_views(words@),
            wv.len() == words@.len(),
            wrap_spec(s@, width as int) == out@ + greedy_tail(wv.skip(i as int), width as int, cur as int),
        decreases words@.len() - i,
    {
        let ghost rest = wv.skip(i as int);
        assert(rest[0] == words@[i as int]@);
        let wlen = words[i].len();
        let fits = cur < width && wlen <= (width - cur) - 1;
        assert(fits == (cur + 1 + rest[0].len() <= width));
        if fits {
            out.push(32);
            push_all(&mut out, &words[i]);
            proof {
                assert(rest.skip(1) =~= wv.skip(i + 1));
            }
            cur = cur + 1 + wlen;
        } else {
            out.push(10);
            push_all(&mut out, &words[i]);
            proof {
                assert(rest.skip(1) =~= wv.skip(i + 1));
            }
            cur = wlen;
        }
        i += 1;
    }
    assert(wv.skip(wv.len() as int) =~= Seq::<Seq<u8>>::empty());
    out
}

/// The lossy UTF-8 decoding of a byte sequence.
pub uninterp spec fn lossy_of(bytes: Seq<u8>) -> Seq<char>;

/// Relies on `String::from_utf8_lossy`: the decoding is a pure function
/// of the bytes, and bytes that are valid UTF-8 are kept; in
/// particular a pure-ASCII sequence decodes to its own characters.
#[verifier::external_body]
fn utf8_lossy(bytes: &Vec<u8>) -> (r: String)
    ensures
        r@ == lossy_of(bytes@),
        (forall|i: int| 0 <= i < bytes@.len() ==> bytes@[i] < 128) ==> r@ == bytes@.map_values(
            |b: u8| b as char,
        ),
{
    String::from_utf8_lossy(bytes).into_owned()
}

/// The model of an optional wrap width.
pub open spec fn wrap_model(w: Option<usize>) -> Option<int> {
    match w {
        Some(x) => Some(x as int),
        None => None,
    }
}

/// The composed line before any wrap: the color prefix, the author
/// name, the reset suffix, one space, and the trimmed message body.
pub open spec fn composed_line_spec(
    author: Seq<u8>,
    hint: Option<Seq<u8>>,
    text: Seq<u8>,
) -> Seq<u8> {
    color_prefix_spec(resolve_spec(hint)) + author + color_suffix_spec() + seq![32u8] + trim_spec(
        text,
    )
}

/// The bytes of the printable line: the composed line, reflowed when a
/// wrap width is set.
pub open spec fn rendered_line_spec(
    author: Seq<u8>,
    hint: Option<Seq<u8>>,
    text: Seq<u8>,
    wrap: Option<int>,
) -> Seq<u8> {
    let full = composed_line_spec(author, hint, text);
    match wrap {
        None => full,
        Some(w) => wrap_spec(full, w),
    }
}

/// Composes one printable line: the author name painted with the
/// resolved color, then the trimmed message body, reflowed when a wrap
/// width is set, decoded with lossy UTF-8 recovery. Returns `None` -
/// suppress the message - exactly when the body is empty after
/// trimming.
pub fn render_line(
    author: &Vec<u8>,
    hint: &Option<Vec<u8>>,
    text: &Vec<u8>,
    wrap_width: Option<usize>,
) -> (out: Option<String>)
    ensures
        (out is Some) == (trim_spec(text@).len() > 0),
        out matches Some(line) ==> line@ == lossy_of(
            rendered_line_spec(author@, hint_model(*hint), text@, wrap_model(wrap_width)),
        ),
{
    let body = trim_bytes(text);
    if body.len() == 0 {
        return None;
    }
    let c = resolve(hint);
    let mut full = ansi_color_prefix(&c);
    push_all(&mut full, author);
    let mut suffix = ansi_color_suffix();
    full.append(&mut suffix);
    full.push(32);
    push_all(&mut full, &body);
    assert(full@ =~= composed_line_spec(author@, hint_model(*hint), text@));
    let line_bytes = match wrap_width {
        Some(w) => wrap_bytes(&full, w),
        None => full,
    };
    Some(utf8_lossy(&line_bytes))
}

} // verus!
