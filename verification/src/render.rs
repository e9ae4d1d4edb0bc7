//! Formatting of single output rows: hex digits, decimal digits, the masked
//! character column, horizontal separators, the duplicate-run marker and the
//! closing summary row.

use vstd::prelude::*;

use crate::human::{human_size, human_size_of};

verus! {

/// The hex digit character (`0`-`9`, `A`-`F`) for a value below 16.
pub open spec fn spec_hex_digit(n: u8) -> char {
    if n < 10 {
        (0x30 + n) as char
    } else {
        (0x37 + n) as char
    }
}

/// Render one value below 16 as its uppercase hex digit.
pub fn hex_digit(n: u8) -> (r: char)
    requires
        n < 16,
    ensures
        r == spec_hex_digit(n),
{
    if n < 10 {
        (0x30u8 + n) as char
    } else {
        (0x37u8 + n) as char
    }
}

/// The decimal digit character for a value below 10.
pub open spec fn spec_dec_digit(n: u8) -> char {
    (0x30 + n) as char
}

/// A run of `n` spaces (empty when `n` is negative).
pub open spec fn spaces(n: int) -> Seq<char> {
    Seq::new(if n < 0 { 0 } else { n as nat }, |i: int| ' ')
}

/// `s` padded on the right with spaces to width `w`.
pub open spec fn pad_right(s: Seq<char>, w: int) -> Seq<char> {
    s + spaces(w - s.len())
}

/// Uppercase hex digits of `n`, most significant first, empty for 0.
pub open spec fn spec_hex_rec(n: nat) -> Seq<char>
    decreases n,
{
    if n == 0 {
        Seq::empty()
    } else {
        spec_hex_rec(n / 16).push(spec_hex_digit((n % 16) as u8))
    }
}

/// `n` as uppercase hex, zero-padded on the left to at least 8 digits.
pub open spec fn spec_hex8(n: nat) -> Seq<char> {
    let d = spec_hex_rec(n);
    if d.len() >= 8 {
        d
    } else {
        Seq::new((8 - d.len()) as nat, |i: int| '0') + d
    }
}

/// Decimal digits of `n`, most significant first, empty for 0.
pub open spec fn spec_dec_rec(n: nat) -> Seq<char>
    decreases n,
{
    if n == 0 {
        Seq::empty()
    } else {
        spec_dec_rec(n / 10).push(spec_dec_digit((n % 10) as u8))
    }
}

/// `n` in decimal, `"0"` for 0.
pub open spec fn spec_dec(n: nat) -> Seq<char> {
    if n == 0 {
        seq!['0']
    } else {
        spec_dec_rec(n)
    }
}

/// The display glyph substituted for a raw byte in the character column:
/// graphic ASCII passes through, newline, space and tab get arrow glyphs,
/// anything else becomes the replacement glyph.
pub open spec fn spec_mask_char(c: char) -> char {
    if 0x21 <= c as u32 && c as u32 <= 0x7e {
        c
    } else if c == '\n' {
        '↩'
    } else if c == ' ' {
        '␣'
    } else if c == '\t' {
        '⭾'
    } else {
        '�'
    }
}

/// Interpret one character for the character column.
pub fn mask_chars(c: char) -> (r: char)
    ensures
        r == spec_mask_char(c),
{
    let u: u32 = c as u32;
    if 0x21 <= u && u <= 0x7e {
        c
    } else if c == '\n' {
        '↩'
    } else if c == ' ' {
        '␣'
    } else if c == '\t' {
        '⭾'
    } else {
        '�'
    }
}

/// One rendered hex cell: the byte at index `i`, with the extra gap space
/// in front of the cell at the half-row boundary.
pub open spec fn spec_hex_cell(b: u8, i: int) -> Seq<char> {
    (if i == 8 {
        seq![' ']
    } else {
        Seq::<char>::empty()
    }) + seq![spec_hex_digit(b / 16), spec_hex_digit(b % 16), ' ']
}

/// The first `l` hex cells of a row over the buffer `bs`.
pub open spec fn spec_hex_cells(bs: Seq<u8>, l: int) -> Seq<char>
    decreases l,
{
    if l <= 0 {
        Seq::empty()
    } else {
        spec_hex_cells(bs, l - 1) + spec_hex_cell(bs[l - 1], l - 1)
    }
}

/// One blank cell of right padding; pad cell 8 carries the gap space.
pub open spec fn spec_pad_cell(i: int) -> Seq<char> {
    (if i == 8 {
        seq![' ']
    } else {
        Seq::<char>::empty()
    }) + seq![' ', ' ', ' ']
}

/// `k` blank cells of right padding.
pub open spec fn spec_pad_cells(k: int) -> Seq<char>
    decreases k,
{
    if k <= 0 {
        Seq::empty()
    } else {
        spec_pad_cells(k - 1) + spec_pad_cell(k - 1)
    }
}

/// The constant-width hex area of a row: `l` byte cells, the half-row gap,
/// and padding out to the full row width; 49 spaces for an empty row.
pub open spec fn spec_hex_area(bs: Seq<u8>, l: int) -> Seq<char> {
    if l == 0 {
        spaces(49)
    } else {
        spec_hex_cells(bs, l) + (if l == 8 {
            seq![' ']
        } else {
            Seq::<char>::empty()
        }) + spec_pad_cells(16 - l)
    }
}

/// The first `l` bytes of `bs`, each masked for display.
pub open spec fn spec_masked(bs: Seq<u8>, l: int) -> Seq<char>
    decreases l,
{
    if l <= 0 {
        Seq::empty()
    } else {
        spec_masked(bs, l - 1).push(spec_mask_char(bs[l - 1] as char))
    }
}

/// The optional character column of a row.
pub open spec fn spec_char_area(bs: Seq<u8>, l: int) -> Seq<char> {
    "│ "@ + (if l != 0 {
        "|"@ + spec_masked(bs, l) + "|"@
    } else {
        spaces(8)
    })
}

/// One full data row: offset, separator, hex area and optional character
/// column, rendered from the first `l` bytes of the buffer `bs`.
pub open spec fn spec_data_line(idx: nat, bs: Seq<u8>, l: int, chars: bool) -> Seq<char> {
    spec_hex8(idx) + " │ "@ + spec_hex_area(bs, l) + (if chars {
        spec_char_area(bs, l)
    } else {
        Seq::<char>::empty()
    })
}

/// The title row above the dump.
pub open spec fn spec_header(chars: bool) -> Seq<char> {
    "DATA IDX │ DATA AS HEX"@ + (if chars {
        "                                      │ DATA AS CHAR"@
    } else {
        Seq::<char>::empty()
    })
}

/// A horizontal separator row: 80 rule glyphs with the character column,
/// 59 without.
pub open spec fn spec_sep_line(chars: bool) -> Seq<char> {
    if chars {
        "────────────────────────────────────────────────────────────────────────────────"@
    } else {
        "───────────────────────────────────────────────────────────"@
    }
}

/// The placeholder row standing for `k` collapsed duplicate rows.
pub open spec fn spec_marker_line(k: nat, chars: bool) -> Seq<char> {
    "******** │ "@ + pad_right("(repeats "@ + spec_dec(k) + " lines)"@, 49) + (if chars {
        "│"@
    } else {
        Seq::<char>::empty()
    })
}

/// The closing summary row: total bytes read, as a human-readable size and
/// as an exact count.
pub open spec fn spec_summary_line(rd: nat, chars: bool) -> Seq<char> {
    spec_hex8(rd) + " │ read total:              "@ + pad_right(human_size_of(rd), 8) + " "@
        + pad_right("("@ + spec_dec(rd) + " B)"@, 15) + (if chars {
        "│"@
    } else {
        Seq::<char>::empty()
    })
}

/// A row is a duplicate-run marker exactly when it opens with an asterisk;
/// every other emitted row opens with a hex digit, a title letter, a rule
/// glyph or a line break.
pub open spec fn is_marker_line(s: Seq<char>) -> bool {
    s.len() > 0 && s[0] == '*'
}

/// Whether `s` is the rendering of some data row.
pub open spec fn is_data_rendering(s: Seq<char>, chars: bool) -> bool {
    exists|idx: nat, bs: Seq<u8>, l: int|
        bs.len() == 16 && 0 <= l <= 16 && s == spec_data_line(idx, bs, l, chars)
}

/// Whether `c` is an uppercase hex digit character.
pub open spec fn is_hex_digit_char(c: char) -> bool {
    0x30 <= c as u32 <= 0x39 || 0x41 <= c as u32 <= 0x46
}

/// Every character of a bare hex rendering is a hex digit.
proof fn lemma_hex_rec_chars(n: nat)
    ensures
        forall|i: int|
            0 <= i < spec_hex_rec(n).len() ==> is_hex_digit_char(#[trigger] spec_hex_rec(n)[i]),
    decreases n,
{
    if n > 0 {
        lemma_hex_rec_chars(n / 16);
        let s = spec_hex_rec(n);
        let d = spec_hex_digit((n % 16) as u8);
        assert(is_hex_digit_char(d));
        assert forall|i: int| 0 <= i < s.len() implies is_hex_digit_char(#[trigger] s[i]) by {
            if i < s.len() - 1 {
                assert(s[i] == spec_hex_rec(n / 16)[i]);
            } else {
                assert(s[i] == d);
            }
        }
    }
}

/// A data row never looks like a duplicate-run marker.
pub proof fn lemma_data_line_not_marker(idx: nat, bs: Seq<u8>, l: int, chars: bool)
    ensures
        !is_marker_line(spec_data_line(idx, bs, l, chars)),
{
    lemma_hex_rec_chars(idx);
    let s = spec_data_line(idx, bs, l, chars);
    let h = spec_hex8(idx);
    assert(s[0] == h[0]);
    if spec_hex_rec(idx).len() >= 8 {
        assert(is_hex_digit_char(h[0]));
    } else {
        assert(h[0] == '0');
    }
}

/// A marker row always looks like one.
pub proof fn lemma_marker_is_marker(k: nat, chars: bool)
    ensures
        is_marker_line(spec_marker_line(k, chars)),
{
    reveal_strlit("******** │ ");
    let s = spec_marker_line(k, chars);
    assert(s[0] == "******** │ "@[0]);
}

/// Relies on `String::push`: appends exactly the one character.
#[verifier::external_body]
pub(crate) fn push_char(s: &mut String, c: char)
    ensures
        final(s)@ == old(s)@.push(c),
{
    s.push(c);
}

/// Append `n` spaces.
pub(crate) fn append_spaces(s: &mut String, n: usize)
    ensures
        final(s)@ == old(s)@ + spaces(n as int),
{
    let mut i: usize = 0;
    while i < n
        invariant
            i <= n,
            s@ == old(s)@ + spaces(i as int),
        decreases n - i,
    {
        push_char(s, ' ');
        proof {
            assert(spaces(i as int).push(' ') =~= spaces(i + 1 as int));
            assert((old(s)@ + spaces(i as int)).push(' ') =~= old(s)@ + spaces(i as int).push(' '));
        }
        i = i + 1;
    }
    proof {
        assert(s@ =~= old(s)@ + spaces(n as int));
    }
}

/// Append every character of `v`.
pub(crate) fn append_chars(s: &mut String, v: &Vec<char>)
    ensures
        final(s)@ == old(s)@ + v@,
{
    let mut i: usize = 0;
    while i < v.len()
        invariant
            i <= v@.len(),
            s@ == old(s)@ + v@.subrange(0, i as int),
        decreases v@.len() - i,
    {
        push_char(s, v[i]);
        proof {
            assert(v@.subrange(0, i as int).push(v@[i as int]) =~= v@.subrange(0, i + 1 as int));
            assert((old(s)@ + v@.subrange(0, i as int)).push(v@[i as int]) =~= old(s)@ + v@.subrange(
                0,
                i + 1 as int,
            ));
        }
        i = i + 1;
    }
    proof {
        assert(v@.subrange(0, v@.len() as int) =~= v@);
    }
}

/// Append the bare hex digits of `n` (nothing for 0).
pub(crate) fn append_hex_rec(s: &mut String, n: usize)
    ensures
        final(s)@ == old(s)@ + spec_hex_rec(n as nat),
    decreases n,
{
    if n > 0 {
        append_hex_rec(s, n / 16);
        let d: u8 = (n % 16) as u8;
        push_char(s, hex_digit(d));
        proof {
            assert(s@ =~= old(s)@ + spec_hex_rec(n as nat));
        }
    } else {
        proof {
            assert(s@ =~= old(s)@ + spec_hex_rec(0));
        }
    }
}

/// How many hex digits `n` has (0 for 0).
pub(crate) fn hex_digit_count(n: usize) -> (c: usize)
    ensures
        c == spec_hex_rec(n as nat).len(),
{
    let mut m: usize = n;
    let mut c: usize = 0;
    proof {
        lemma_hex_rec_len_le(n as nat);
    }
    while m > 0
        invariant
            spec_hex_rec(n as nat).len() == c + spec_hex_rec(m as nat).len(),
            c <= spec_hex_rec(n as nat).len(),
            spec_hex_rec(n as nat).len() <= n,
        decreases m,
    {
        m = m / 16;
        c = c + 1;
    }
    c
}

/// A number has no more hex digits than its own value.
proof fn lemma_hex_rec_len_le(n: nat)
    ensures
        spec_hex_rec(n).len() <= n,
    decreases n,
{
    if n > 0 {
        lemma_hex_rec_len_le(n / 16);
    }
}

/// Powers of 10.
spec fn pow10(k: nat) -> nat
    decreases k,
{
    if k == 0 {
        1
    } else {
        10 * pow10((k - 1) as nat)
    }
}

/// Below 10^k there are at most k decimal digits.
proof fn lemma_dec_rec_len_pow(n: nat, k: nat)
    requires
        n < pow10(k),
    ensures
        spec_dec_rec(n).len() <= k,
    decreases k,
{
    if n > 0 {
        if k == 0 {
            assert(pow10(0) == 1);
        }
        assert(pow10(k) == 10 * pow10((k - 1) as nat));
        assert(n / 10 < pow10((k - 1) as nat)) by (nonlinear_arith)
            requires
                n < 10 * pow10((k - 1) as nat),
        ;
        lemma_dec_rec_len_pow(n / 10, (k - 1) as nat);
    }
}

/// A usize value has at most 20 decimal digits.
pub(crate) proof fn lemma_dec_len_bound(n: nat)
    requires
        n <= usize::MAX,
    ensures
        spec_dec_rec(n).len() <= 20,
{
    assert(pow10(20) == 100000000000000000000) by {
        reveal_with_fuel(pow10, 21);
    }
    assert(usize::MAX < 100000000000000000000);
    lemma_dec_rec_len_pow(n, 20);
}

/// Append `n` as hex, zero-padded on the left to at least 8 digits.
pub(crate) fn append_hex8(s: &mut String, n: usize)
    ensures
        final(s)@ == old(s)@ + spec_hex8(n as nat),
{
    let c = hex_digit_count(n);
    let pad: usize = if c >= 8 {
        0
    } else {
        8 - c
    };
    let mut i: usize = 0;
    while i < pad
        invariant
            i <= pad,
            s@ == old(s)@ + Seq::new(i as nat, |j: int| '0'),
        decreases pad - i,
    {
        push_char(s, '0');
        proof {
            assert(Seq::new(i as nat, |j: int| '0').push('0') =~= Seq::new(
                (i + 1) as nat,
                |j: int| '0',
            ));
            assert((old(s)@ + Seq::new(i as nat, |j: int| '0')).push('0') =~= old(s)@ + Seq::new(
                i as nat,
                |j: int| '0',
            ).push('0'));
        }
        i = i + 1;
    }
    append_hex_rec(s, n);
    proof {
        assert(s@ =~= old(s)@ + spec_hex8(n as nat));
    }
}

/// Append the bare decimal digits of `n` (nothing for 0).
pub(crate) fn append_dec_rec(s: &mut String, n: usize)
    ensures
        final(s)@ == old(s)@ + spec_dec_rec(n as nat),
    decreases n,
{
    if n > 0 {
        append_dec_rec(s, n / 10);
        let d: u8 = (n % 10) as u8;
        push_char(s, (0x30u8 + d) as char);
        proof {
            assert(s@ =~= old(s)@ + spec_dec_rec(n as nat));
        }
    } else {
        proof {
            assert(s@ =~= old(s)@ + spec_dec_rec(0));
        }
    }
}

/// Append `n` in decimal (`0` for 0).
pub(crate) fn append_dec(s: &mut String, n: usize)
    ensures
        final(s)@ == old(s)@ + spec_dec(n as nat),
{
    if n == 0 {
        push_char(s, '0');
        proof {
            assert(s@ =~= old(s)@ + spec_dec(0));
        }
    } else {
        append_dec_rec(s, n);
    }
}

/// How many decimal digits `n` has (0 for 0).
pub(crate) fn dec_digit_count(n: usize) -> (c: usize)
    ensures
        c == spec_dec_rec(n as nat).len(),
{
    let mut m: usize = n;
    let mut c: usize = 0;
    proof {
        lemma_dec_rec_len_le(n as nat);
    }
    while m > 0
        invariant
            spec_dec_rec(n as nat).len() == c + spec_dec_rec(m as nat).len(),
            c <= spec_dec_rec(n as nat).len(),
            spec_dec_rec(n as nat).len() <= n,
        decreases m,
    {
        m = m / 10;
        c = c + 1;
    }
    c
}

/// A number has no more decimal digits than its own value.
proof fn lemma_dec_rec_len_le(n: nat)
    ensures
        spec_dec_rec(n).len() <= n,
    decreases n,
{
    if n > 0 {
        lemma_dec_rec_len_le(n / 10);
    }
}

/// Append the constant-width hex area of a row.
pub(crate) fn append_hex_area(s: &mut String, bs: &Vec<u8>, l: usize)
    requires
        l <= 16,
        bs@.len() == 16,
    ensures
        final(s)@ == old(s)@ + spec_hex_area(bs@, l as int),
{
    if l == 0 {
        append_spaces(s, 49);
    } else {
        let mut i: usize = 0;
        while i < l
            invariant
                i <= l <= 16,
                bs@.len() == 16,
                s@ == old(s)@ + spec_hex_cells(bs@, i as int),
            decreases l - i,
        {
            if i == 8 {
                push_char(s, ' ');
            }
            let b = bs[i];
            push_char(s, hex_digit(b / 16));
            push_char(s, hex_digit(b % 16));
            push_char(s, ' ');
            proof {
                assert(s@ =~= old(s)@ + spec_hex_cells(bs@, i + 1 as int));
            }
            i = i + 1;
        }
        if l == 8 {
            push_char(s, ' ');
        }
        let ghost mid = s@;
        let pads: usize = 16 - l;
        let mut j: usize = 0;
        while j < pads
            invariant
                j <= pads,
                s@ == mid + spec_pad_cells(j as int),
            decreases pads - j,
        {
            if j == 8 {
                push_char(s, ' ');
            }
            push_char(s, ' ');
            push_char(s, ' ');
            push_char(s, ' ');
            proof {
                assert(s@ =~= mid + spec_pad_cells(j + 1 as int));
            }
            j = j + 1;
        }
        proof {
            assert(s@ =~= old(s)@ + spec_hex_area(bs@, l as int));
        }
    }
}

/// Append the first `l` bytes of `bs`, masked for display.
pub(crate) fn append_masked(s: &mut String, bs: &Vec<u8>, l: usize)
    requires
        l <= bs@.len(),
    ensures
        final(s)@ == old(s)@ + spec_masked(bs@, l as int),
{
    let mut i: usize = 0;
    while i < l
        invariant
            i <= l <= bs@.len(),
            s@ == old(s)@ + spec_masked(bs@, i as int),
        decreases l - i,
    {
        push_char(s, mask_chars(bs[i] as char));
        proof {
            assert(s@ =~= old(s)@ + spec_masked(bs@, i + 1 as int));
        }
        i = i + 1;
    }
}

/// Append one full data row.
pub(crate) fn append_data_line(s: &mut String, idx: usize, bs: &Vec<u8>, l: usize, chars: bool)
    requires
        l <= 16,
        bs@.len() == 16,
    ensures
        final(s)@ == old(s)@ + spec_data_line(idx as nat, bs@, l as int, chars),
{
    append_hex8(s, idx);
    s.append(" │ ");
    append_hex_area(s, bs, l);
    if chars {
        s.append("│ ");
        if l != 0 {
            s.append("|");
            append_masked(s, bs, l);
            s.append("|");
        } else {
            append_spaces(s, 8);
        }
    }
    proof {
        assert(s@ =~= old(s)@ + spec_data_line(idx as nat, bs@, l as int, chars));
    }
}

/// Append the placeholder row standing for `k` collapsed duplicate rows.
pub(crate) fn append_marker(s: &mut String, k: usize, chars: bool)
    ensures
        final(s)@ == old(s)@ + spec_marker_line(k as nat, chars),
{
    s.append("******** │ ");
    s.append("(repeats ");
    append_dec(s, k);
    s.append(" lines)");
    let c = dec_digit_count(k);
    let digits: usize = if k == 0 {
        1
    } else {
        c
    };
    proof {
        reveal_strlit("(repeats ");
        reveal_strlit(" lines)");
        lemma_dec_len_bound(k as nat);
    }
    let inner: usize = 16 + digits;
    let pad: usize = if inner >= 49 {
        0
    } else {
        49 - inner
    };
    append_spaces(s, pad);
    if chars {
        s.append("│");
    }
    proof {
        assert(spaces(pad as int) =~= spaces(
            49 - ("(repeats "@ + spec_dec(k as nat) + " lines)"@).len(),
        ));
        assert(s@ =~= old(s)@ + spec_marker_line(k as nat, chars));
    }
}

/// Append the closing summary row for `rd` bytes read in total.
#[verifier::rlimit(60)]
pub(crate) fn append_summary(s: &mut String, rd: usize, chars: bool)
    ensures
        final(s)@ == old(s)@ + spec_summary_line(rd as nat, chars),
{
    append_hex8(s, rd);
    s.append(" │ read total:              ");
    let h = human_size(rd);
    append_chars(s, &h);
    let hpad: usize = if h.len() >= 8 {
        0
    } else {
        8 - h.len()
    };
    append_spaces(s, hpad);
    s.append(" ");
    s.append("(");
    append_dec(s, rd);
    s.append(" B)");
    let c = dec_digit_count(rd);
    let digits: usize = if rd == 0 {
        1
    } else {
        c
    };
    proof {
        reveal_strlit("(");
        reveal_strlit(" B)");
        lemma_dec_len_bound(rd as nat);
    }
    let blen: usize = 4 + digits;
    let bpad: usize = if blen >= 15 {
        0
    } else {
        15 - blen
    };
    append_spaces(s, bpad);
    if chars {
        s.append("│");
    }
    proof {
        assert(spaces(hpad as int) =~= spaces(8 - human_size_of(rd as nat).len()));
        assert(spaces(bpad as int) =~= spaces(
            15 - ("("@ + spec_dec(rd as nat) + " B)"@).len(),
        ));
        assert(s@ =~= old(s)@ + spec_summary_line(rd as nat, chars));
    }
}

} // verus!
