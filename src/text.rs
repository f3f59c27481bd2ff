use vstd::prelude::*;
use vstd::string::StringExecFns;
use vstd::arithmetic::div_mod::lemma_fundamental_div_mod;
use vstd::arithmetic::div_mod::lemma_fundamental_div_mod_converse;

verus! {

/// The lowercase hexadecimal digit for a value below sixteen.
pub open spec fn hex_digit(d: nat) -> char {
    if d < 10 {
        ((d + 48) as u32) as char
    } else {
        ((d + 87) as u32) as char
    }
}

/// The value of a lowercase hexadecimal digit.
pub open spec fn hex_value(c: char) -> nat {
    if (c as u32) < 58 {
        ((c as u32) - 48) as nat
    } else {
        ((c as u32) - 87) as nat
    }
}

/// The two digits of a byte, high nibble first, and the separator that
/// follows them unless `packed` is set.
pub open spec fn pair_text(b: u8, packed: bool) -> Seq<char> {
    let digits = seq![hex_digit((b / 16) as nat), hex_digit((b % 16) as nat)];
    if packed {
        digits
    } else {
        digits + seq![' ']
    }
}

/// Whether a line ends after the `count`-th byte: with a line width `w`, after
/// every `w`-th byte; without one, never.
pub open spec fn breaks_after(count: nat, wrap: Option<usize>) -> bool {
    match wrap {
        Some(w) => w > 0 && count % (w as nat) == 0,
        None => false,
    }
}

/// The data records of `s`: each byte as its pair, a line ending after each
/// byte where `breaks_after` says so.
pub open spec fn records(s: Seq<u8>, wrap: Option<usize>, packed: bool) -> Seq<char>
    decreases s.len(),
{
    if s.len() == 0 {
        seq![]
    } else {
        records(s.drop_last(), wrap, packed) + pair_text(s.last(), packed) + if breaks_after(
            s.len(),
            wrap,
        ) {
            seq!['\n']
        } else {
            seq![]
        }
    }
}

/// A value in lowercase hexadecimal, most significant digit first, with no
/// leading zeros (zero is one digit).
pub open spec fn hex_number(v: nat) -> Seq<char>
    decreases v,
{
    if v < 16 {
        seq![hex_digit(v)]
    } else {
        hex_number(v / 16) + seq![hex_digit(v % 16)]
    }
}

/// The two header lines of a stream: the comment naming the section and the
/// address directive.
pub open spec fn header_text(name: Seq<char>, directive: u64) -> Seq<char> {
    seq!['/', '/', ' ', 's', 'e', 'c', 't', 'i', 'o', 'n', ' ', '"'] + name + seq!['"', '\n', '@']
        + hex_number(directive as nat) + seq!['\n']
}

/// A stream's whole contribution for one section: header, records and the
/// terminating line ending.
pub open spec fn stream_text(
    name: Seq<char>,
    directive: u64,
    s: Seq<u8>,
    wrap: Option<usize>,
    packed: bool,
) -> Seq<char> {
    header_text(name, directive) + records(s, wrap, packed) + seq!['\n']
}

/// The characters of `t` other than spaces and line endings.
pub open spec fn strip_layout(t: Seq<char>) -> Seq<char>
    decreases t.len(),
{
    if t.len() == 0 {
        seq![]
    } else if t.last() == ' ' || t.last() == '\n' {
        strip_layout(t.drop_last())
    } else {
        strip_layout(t.drop_last()).push(t.last())
    }
}

/// The bytes that consecutive digit pairs of `t` stand for.
pub open spec fn decode_pairs(t: Seq<char>) -> Seq<u8>
    decreases t.len(),
{
    if t.len() < 2 {
        seq![]
    } else {
        decode_pairs(t.subrange(0, t.len() - 2)).push(
            (hex_value(t[t.len() - 2]) * 16 + hex_value(t[t.len() - 1])) as u8,
        )
    }
}

/// The number of line endings in `t`.
pub open spec fn line_breaks(t: Seq<char>) -> nat
    decreases t.len(),
{
    if t.len() == 0 {
        0
    } else {
        line_breaks(t.drop_last()) + if t.last() == '\n' {
            1nat
        } else {
            0nat
        }
    }
}

/// The digits of `s`, two per byte, with nothing between them.
pub open spec fn hex_digits(s: Seq<u8>) -> Seq<char>
    decreases s.len(),
{
    if s.len() == 0 {
        seq![]
    } else {
        hex_digits(s.drop_last()) + seq![
            hex_digit((s.last() / 16) as nat),
            hex_digit((s.last() % 16) as nat),
        ]
    }
}

/// Relies on `String::push`: the character is appended.
#[verifier::external_body]
fn push_char(out: &mut String, c: char)
    ensures
        final(out)@ == old(out)@.push(c),
{
    out.push(c)
}

/// The lowercase hexadecimal digit for `d`.
pub fn digit_char(d: u8) -> (c: char)
    requires
        d < 16,
    ensures
        c == hex_digit(d as nat),
{
    if d < 10 {
        (d + 48) as char
    } else {
        (d + 87) as char
    }
}

proof fn lemma_digit_value(d: nat)
    requires
        d < 16,
    ensures
        hex_value(hex_digit(d)) == d,
        hex_digit(d) != ' ',
        hex_digit(d) != '\n',
{
}

/// Appends the pair of `b` and, unless `packed`, its separator.
pub fn push_pair(out: &mut String, b: u8, packed: bool)
    ensures
        final(out)@ == old(out)@ + pair_text(b, packed),
{
    push_char(out, digit_char(b / 16));
    push_char(out, digit_char(b % 16));
    if !packed {
        push_char(out, ' ');
    }
    assert(final(out)@ =~= old(out)@ + pair_text(b, packed));
}

/// Appends the data records of `bytes`.
pub fn push_records(out: &mut String, bytes: &[u8], wrap: Option<usize>, packed: bool)
    ensures
        final(out)@ == old(out)@ + records(bytes@, wrap, packed),
{
    let n = bytes.len();
    let mut i: usize = 0;
    assert(bytes@.subrange(0, 0) =~= Seq::<u8>::empty());
    while i < n
        invariant
            i <= n,
            n == bytes@.len(),
            out@ == old(out)@ + records(bytes@.subrange(0, i as int), wrap, packed),
        decreases n - i,
    {
        let ghost before = out@;
        push_pair(out, bytes[i], packed);
        let line_ends = match wrap {
            Some(w) => w > 0 && (i + 1) % w == 0,
            None => false,
        };
        if line_ends {
            push_char(out, '\n');
        }
        let ghost next = bytes@.subrange(0, i + 1);
        assert(next.drop_last() =~= bytes@.subrange(0, i as int));
        assert(next.last() == bytes@[i as int]);
        i = i + 1;
        assert(out@ =~= old(out)@ + records(bytes@.subrange(0, i as int), wrap, packed));
    }
    assert(bytes@.subrange(0, n as int) =~= bytes@);
}

/// Appends `v` in lowercase hexadecimal without leading zeros.
pub fn push_hex_number(out: &mut String, v: u64)
    ensures
        final(out)@ == old(out)@ + hex_number(v as nat),
    decreases v,
{
    if v >= 16 {
        push_hex_number(out, v / 16);
    }
    push_char(out, digit_char((v % 16) as u8));
    assert(final(out)@ =~= old(out)@ + hex_number(v as nat));
}

/// Appends the comment line naming the section and the directive line.
pub fn push_header(out: &mut String, name: &str, directive: u64)
    ensures
        final(out)@ == old(out)@ + header_text(name@, directive),
{
    push_char(out, '/');
    push_char(out, '/');
    push_char(out, ' ');
    push_char(out, 's');
    push_char(out, 'e');
    push_char(out, 'c');
    push_char(out, 't');
    push_char(out, 'i');
    push_char(out, 'o');
    push_char(out, 'n');
    push_char(out, ' ');
    push_char(out, '"');
    out.append(name);
    push_char(out, '"');
    push_char(out, '\n');
    push_char(out, '@');
    push_hex_number(out, directive);
    push_char(out, '\n');
    assert(final(out)@ =~= old(out)@ + header_text(name@, directive));
}

/// The text of one stream for one section.
pub fn stream(name: &str, directive: u64, bytes: &[u8], wrap: Option<usize>, packed: bool) -> (r:
    String)
    ensures
        r@ == stream_text(name@, directive, bytes@, wrap, packed),
{
    let mut out = String::new();
    push_header(&mut out, name, directive);
    push_records(&mut out, bytes, wrap, packed);
    push_char(&mut out, '\n');
    assert(out@ =~= stream_text(name@, directive, bytes@, wrap, packed));
    out
}

proof fn lemma_strip_append(a: Seq<char>, b: Seq<char>)
    ensures
        strip_layout(a + b) == strip_layout(a) + strip_layout(b),
        line_breaks(a + b) == line_breaks(a) + line_breaks(b),
    decreases b.len(),
{
    if b.len() == 0 {
        assert(a + b =~= a);
        assert(strip_layout(a) + strip_layout(b) =~= strip_layout(a));
    } else {
        assert((a + b).drop_last() =~= a + b.drop_last());
        lemma_strip_append(a, b.drop_last());
        if b.last() == ' ' || b.last() == '\n' {
        } else {
            assert(strip_layout(a + b) =~= strip_layout(a) + strip_layout(b));
        }
    }
}

proof fn lemma_one_char(c: char)
    ensures
        strip_layout(seq![c]) == if c == ' ' || c == '\n' {
            Seq::<char>::empty()
        } else {
            seq![c]
        },
        line_breaks(seq![c]) == if c == '\n' {
            1nat
        } else {
            0nat
        },
{
    assert(seq![c].drop_last() =~= Seq::<char>::empty());
    assert(strip_layout(Seq::<char>::empty()) == Seq::<char>::empty());
    assert(line_breaks(Seq::<char>::empty()) == 0);
    assert(Seq::<char>::empty().push(c) =~= seq![c]);
}

proof fn lemma_pair_layout(b: u8, packed: bool)
    ensures
        strip_layout(pair_text(b, packed)) == seq![
            hex_digit((b / 16) as nat),
            hex_digit((b % 16) as nat),
        ],
        line_breaks(pair_text(b, packed)) == 0,
{
    let hi = hex_digit((b / 16) as nat);
    let lo = hex_digit((b % 16) as nat);
    lemma_digit_value((b / 16) as nat);
    lemma_digit_value((b % 16) as nat);
    lemma_one_char(hi);
    lemma_one_char(lo);
    lemma_one_char(' ');
    let d = seq![hi, lo];
    assert(d =~= seq![hi] + seq![lo]);
    lemma_strip_append(seq![hi], seq![lo]);
    assert(strip_layout(d) =~= d);
    if !packed {
        lemma_strip_append(d, seq![' ']);
        assert(strip_layout(d) + Seq::<char>::empty() =~= d);
    }
}

proof fn lemma_records_layout(s: Seq<u8>, wrap: Option<usize>, packed: bool)
    ensures
        strip_layout(records(s, wrap, packed)) == hex_digits(s),
    decreases s.len(),
{
    if s.len() > 0 {
        let brk: Seq<char> = if breaks_after(s.len(), wrap) {
            seq!['\n']
        } else {
            seq![]
        };
        let head = records(s.drop_last(), wrap, packed);
        lemma_records_layout(s.drop_last(), wrap, packed);
        lemma_strip_append(head, pair_text(s.last(), packed));
        lemma_strip_append(head + pair_text(s.last(), packed), brk);
        lemma_pair_layout(s.last(), packed);
        lemma_one_char('\n');
        assert(strip_layout(Seq::<char>::empty()) == Seq::<char>::empty());
        assert(strip_layout(brk) =~= Seq::<char>::empty());
        assert(strip_layout(records(s, wrap, packed)) =~= hex_digits(s));
    }
}

proof fn lemma_decode_digits(s: Seq<u8>)
    ensures
        decode_pairs(hex_digits(s)) == s,
    decreases s.len(),
{
    if s.len() > 0 {
        let t = hex_digits(s);
        let hi = (s.last() / 16) as nat;
        let lo = (s.last() % 16) as nat;
        lemma_digit_value(hi);
        lemma_digit_value(lo);
        lemma_decode_digits(s.drop_last());
        assert(t.subrange(0, t.len() - 2) =~= hex_digits(s.drop_last()));
        assert(t[t.len() - 2] == hex_digit(hi));
        assert(t[t.len() - 1] == hex_digit(lo));
        assert((hi * 16 + lo) as u8 == s.last());
        assert(decode_pairs(t) =~= s);
    }
}

/// Reading back the digit pairs of a stream's data, with spaces and line
/// endings left out, gives the bytes that were written.
pub proof fn lemma_records_round_trip(s: Seq<u8>, wrap: Option<usize>, packed: bool)
    ensures
        decode_pairs(strip_layout(records(s, wrap, packed) + seq!['\n'])) == s,
{
    lemma_records_layout(s, wrap, packed);
    lemma_strip_append(records(s, wrap, packed), seq!['\n']);
    lemma_one_char('\n');
    assert(strip_layout(records(s, wrap, packed) + seq!['\n']) =~= hex_digits(s));
    lemma_decode_digits(s);
}

proof fn lemma_div_step(n: int, w: int)
    requires
        n >= 1,
        w > 0,
    ensures
        n / w == (n - 1) / w + if n % w == 0 {
            1int
        } else {
            0int
        },
{
    lemma_fundamental_div_mod(n - 1, w);
    let q = (n - 1) / w;
    let r = (n - 1) % w;
    if r == w - 1 {
        assert(n == (q + 1) * w + 0) by (nonlinear_arith)
            requires
                n - 1 == w * q + r,
                r == w - 1,
        ;
        lemma_fundamental_div_mod_converse(n, w, q + 1, 0);
    } else {
        assert(n == q * w + (r + 1)) by (nonlinear_arith)
            requires
                n - 1 == w * q + r,
        ;
        lemma_fundamental_div_mod_converse(n, w, q, r + 1);
    }
}

proof fn lemma_records_breaks(s: Seq<u8>, w: usize, packed: bool)
    requires
        w > 0,
    ensures
        line_breaks(records(s, Some(w), packed)) == s.len() as int / (w as int),
    decreases s.len(),
{
    if s.len() > 0 {
        let brk: Seq<char> = if breaks_after(s.len(), Some(w)) {
            seq!['\n']
        } else {
            seq![]
        };
        let head = records(s.drop_last(), Some(w), packed);
        lemma_records_breaks(s.drop_last(), w, packed);
        lemma_strip_append(head, pair_text(s.last(), packed));
        lemma_strip_append(head + pair_text(s.last(), packed), brk);
        lemma_pair_layout(s.last(), packed);
        lemma_one_char('\n');
        assert(line_breaks(Seq::<char>::empty()) == 0);
        lemma_div_step(s.len() as int, w as int);
    }
}

/// The data of a stream wrapped at `w` bytes holds one line ending after
/// every `w`-th byte and one after the last: `n / w + 1` in all, which is
/// `ceil(n / w)` whenever `n` is not a multiple of `w`; packing changes
/// the separators only, never the count.
pub proof fn lemma_line_breaks(s: Seq<u8>, w: usize, packed: bool)
    requires
        w > 0,
    ensures
        line_breaks(records(s, Some(w), packed) + seq!['\n']) == s.len() as int / (w as int) + 1,
        s.len() as int % (w as int) != 0 ==> line_breaks(records(s, Some(w), packed) + seq!['\n']) == (
        s.len() + w - 1) as int / (w as int),
        line_breaks(records(s, Some(w), true) + seq!['\n']) == line_breaks(
            records(s, Some(w), false) + seq!['\n'],
        ),
{
    lemma_records_breaks(s, w, packed);
    lemma_records_breaks(s, w, !packed);
    lemma_strip_append(records(s, Some(w), packed), seq!['\n']);
    lemma_strip_append(records(s, Some(w), !packed), seq!['\n']);
    lemma_one_char('\n');
    let n = s.len() as int;
    let d = w as int;
    if n % d != 0 {
        lemma_fundamental_div_mod(n, d);
        assert(n + d - 1 == (n / d + 1) * d + (n % d - 1)) by (nonlinear_arith)
            requires
                n == d * (n / d) + n % d,
        ;
        lemma_fundamental_div_mod_converse(n + d - 1, d, n / d + 1, n % d - 1);
    }
}

} // verus!
