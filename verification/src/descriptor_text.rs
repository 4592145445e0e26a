//! The textual form of a capability descriptor: a structured object whose
//! fields appear in the fixed order id, name, version, revision,
//! long_description, supported_operations, with each operation's name,
//! direction and doctext in that order. The encoder and the decoder are
//! exact inverses of one another: decoding accepts precisely the encodings,
//! and every encoded descriptor decodes back to itself, so the textual form
//! is lossless and its field order stable.

use vstd::prelude::*;
use vstd::string::StrSliceExecFns;

use crate::capabilities::{
    CapabilityDescriptor, DescriptorView, OperationDescriptor, OperationDirection, OperationView,
};

verus! {

/// The escaped form of one string character: a quote or a backslash is
/// preceded by a backslash, and every other character — control characters
/// included — stands for itself. The form is therefore exactly invertible,
/// though a string holding a control character yields text that strict
/// JSON tooling would spell with a numeric escape instead.
pub open spec fn esc_char(c: char) -> Seq<char> {
    if c == '"' || c == '\\' {
        seq!['\\', c]
    } else {
        seq![c]
    }
}

/// The escaped form of a whole string.
pub open spec fn esc(s: Seq<char>) -> Seq<char>
    decreases s.len(),
{
    if s.len() == 0 {
        Seq::empty()
    } else {
        esc_char(s[0]) + esc(s.skip(1))
    }
}

/// The escaped form of a string followed by its closing quote.
pub open spec fn esc_q(s: Seq<char>) -> Seq<char> {
    esc(s) + seq!['"']
}

/// Escaping distributes over concatenation.
pub proof fn lemma_esc_app(a: Seq<char>, b: Seq<char>)
    ensures
        esc(a + b) == esc(a) + esc(b),
    decreases a.len(),
{
    if a.len() == 0 {
        assert(a + b =~= b);
        assert(esc(a) + esc(b) =~= esc(b));
    } else {
        assert((a + b).skip(1) =~= a.skip(1) + b);
        lemma_esc_app(a.skip(1), b);
        assert(esc(a + b) == esc_char(a[0]) + (esc(a.skip(1)) + esc(b)));
        assert(esc_char(a[0]) + (esc(a.skip(1)) + esc(b)) =~= (esc_char(a[0]) + esc(a.skip(1)))
            + esc(b));
    }
}

/// Escaping one more character appends that character's escaped form.
pub proof fn lemma_esc_snoc(s: Seq<char>, c: char)
    ensures
        esc(s.push(c)) == esc(s) + esc_char(c),
{
    assert(s.push(c) =~= s + seq![c]);
    lemma_esc_app(s, seq![c]);
    assert(seq![c].skip(1) =~= Seq::<char>::empty());
    assert(esc(Seq::<char>::empty()) =~= Seq::<char>::empty());
    assert(seq![c][0] == c);
    assert(esc(seq![c]) =~= esc_char(c) + esc(Seq::<char>::empty()));
    assert(esc_char(c) + Seq::<char>::empty() =~= esc_char(c));
}

/// Escaping splits at any index.
pub proof fn lemma_esc_split(s: Seq<char>, m: int)
    requires
        0 <= m <= s.len(),
    ensures
        esc(s) == esc(s.take(m)) + esc(s.skip(m)),
{
    assert(s =~= s.take(m) + s.skip(m));
    lemma_esc_app(s.take(m), s.skip(m));
}

/// Whether `c` is a decimal digit.
pub open spec fn is_digit(c: char) -> bool {
    c == '0' || c == '1' || c == '2' || c == '3' || c == '4' || c == '5' || c == '6' || c == '7'
        || c == '8' || c == '9'
}

/// The numeric value of a digit character.
pub open spec fn digit_val(c: char) -> int {
    if c == '0' {
        0
    } else if c == '1' {
        1
    } else if c == '2' {
        2
    } else if c == '3' {
        3
    } else if c == '4' {
        4
    } else if c == '5' {
        5
    } else if c == '6' {
        6
    } else if c == '7' {
        7
    } else if c == '8' {
        8
    } else if c == '9' {
        9
    } else {
        0
    }
}

/// The digit character for a value below ten.
pub open spec fn digit_char(d: int) -> char {
    if d == 0 {
        '0'
    } else if d == 1 {
        '1'
    } else if d == 2 {
        '2'
    } else if d == 3 {
        '3'
    } else if d == 4 {
        '4'
    } else if d == 5 {
        '5'
    } else if d == 6 {
        '6'
    } else if d == 7 {
        '7'
    } else if d == 8 {
        '8'
    } else {
        '9'
    }
}

/// The canonical decimal form of a number: no leading zeros.
pub open spec fn dec_digits(n: int) -> Seq<char>
    decreases n,
{
    if n < 10 {
        seq![digit_char(n)]
    } else {
        dec_digits(n / 10).push(digit_char(n % 10))
    }
}

/// The number a digit string denotes.
pub open spec fn digits_val(s: Seq<char>) -> int
    decreases s.len(),
{
    if s.len() == 0 {
        0
    } else {
        digits_val(s.drop_last()) * 10 + digit_val(s.last())
    }
}

/// Every character of a canonical decimal form is a digit, the form is
/// nonempty, it denotes the number itself, and a multi-digit form never
/// starts with zero.
pub proof fn lemma_dec_digits(n: int)
    requires
        0 <= n,
    ensures
        dec_digits(n).len() >= 1,
        forall|i: int| 0 <= i < dec_digits(n).len() ==> is_digit(#[trigger] dec_digits(n)[i]),
        digits_val(dec_digits(n)) == n,
        dec_digits(n).len() > 1 ==> dec_digits(n)[0] != '0',
        n < 10 ==> dec_digits(n).len() == 1,
        n >= 10 ==> dec_digits(n).len() > 1,
    decreases n,
{
    if n < 10 {
        let s = dec_digits(n);
        assert(s =~= seq![digit_char(n)]);
        assert(s.drop_last() =~= Seq::<char>::empty());
        assert(digits_val(Seq::<char>::empty()) == 0);
        assert(s.last() == digit_char(n));
        assert(digits_val(s) == 0 * 10 + digit_val(digit_char(n)));
    } else {
        vstd::arithmetic::div_mod::lemma_fundamental_div_mod(n, 10);
        vstd::arithmetic::div_mod::lemma_mod_bound(n, 10);
        vstd::arithmetic::div_mod::lemma_div_is_ordered_by_denominator(n, 1, 10);
        vstd::arithmetic::div_mod::lemma_div_by_multiple(n, 1);
        lemma_dec_digits(n / 10);
        let s = dec_digits(n);
        assert(s.drop_last() =~= dec_digits(n / 10));
        assert(s.last() == digit_char(n % 10));
        assert(digits_val(s) == (n / 10) * 10 + (n % 10));
        assert((n / 10) * 10 + (n % 10) == 10 * (n / 10) + (n % 10)) by (nonlinear_arith);
        assert(forall|i: int|
            0 <= i < s.len() - 1 ==> is_digit(#[trigger] s[i]) && s[i] == dec_digits(n / 10)[i]);
    }
}

/// A digit string with no leading zero is the canonical decimal form of the
/// number it denotes.
pub proof fn lemma_digits_canonical(s: Seq<char>)
    requires
        s.len() >= 1,
        forall|i: int| 0 <= i < s.len() ==> is_digit(#[trigger] s[i]),
        s.len() > 1 ==> s[0] != '0',
    ensures
        0 <= digits_val(s),
        s == dec_digits(digits_val(s)),
        s.len() > 1 ==> digits_val(s) >= 10,
    decreases s.len(),
{
    if s.len() == 1 {
        assert(s.drop_last() =~= Seq::<char>::empty());
        assert(digits_val(Seq::<char>::empty()) == 0);
        assert(s.last() == s[0]);
        assert(digits_val(s) == 0 * 10 + digit_val(s[0]));
        assert(0 <= digits_val(s) < 10);
        assert(digit_char(digit_val(s[0])) == s[0]);
        assert(dec_digits(digits_val(s)) =~= s);
    } else {
        let dl = s.drop_last();
        assert(dl[0] == s[0]);
        assert(forall|i: int| 0 <= i < dl.len() ==> is_digit(#[trigger] dl[i]));
        lemma_digits_canonical(dl);
        let x = digits_val(s);
        let h = digits_val(dl);
        assert(x == h * 10 + digit_val(s.last()));
        assert(h >= 1) by {
            lemma_digits_val_pos(dl);
        }
        assert(x >= 10) by (nonlinear_arith)
            requires
                h >= 1,
                x == h * 10 + digit_val(s.last()),
                digit_val(s.last()) >= 0,
        ;
        assert(x / 10 == h && x % 10 == digit_val(s.last())) by {
            assert(x == 10 * h + digit_val(s.last()));
            vstd::arithmetic::div_mod::lemma_div_multiples_vanish_fancy(
                h,
                digit_val(s.last()),
                10,
            );
            vstd::arithmetic::div_mod::lemma_mod_multiples_vanish(h, digit_val(s.last()), 10);
            vstd::arithmetic::div_mod::lemma_small_mod(digit_val(s.last()) as nat, 10nat);
        }
        assert(dec_digits(x) == dec_digits(h).push(digit_char(x % 10)));
        assert(digit_char(digit_val(s.last())) == s.last());
        assert(dec_digits(x) =~= s);
    }
}

/// A nonempty digit string that does not start with zero denotes at least
/// one.
proof fn lemma_digits_val_pos(s: Seq<char>)
    requires
        s.len() >= 1,
        forall|i: int| 0 <= i < s.len() ==> is_digit(#[trigger] s[i]),
        s[0] != '0',
    ensures
        digits_val(s) >= 1,
    decreases s.len(),
{
    if s.len() == 1 {
        assert(digit_val(s[0]) >= 1);
    } else {
        lemma_digits_val_pos(s.drop_last());
        assert(digits_val(s) == digits_val(s.drop_last()) * 10 + digit_val(s.last()));
        assert(digits_val(s) >= 1) by (nonlinear_arith)
            requires
                digits_val(s.drop_last()) >= 1,
                digits_val(s) == digits_val(s.drop_last()) * 10 + digit_val(s.last()),
                digit_val(s.last()) >= 0,
        ;
    }
}

/// A prefix of a digit string never denotes more than the whole.
pub proof fn lemma_digits_val_prefix(s: Seq<char>, m: int)
    requires
        0 <= m <= s.len(),
        forall|i: int| 0 <= i < s.len() ==> is_digit(#[trigger] s[i]),
    ensures
        0 <= digits_val(s.take(m)) <= digits_val(s),
    decreases s.len() - m,
{
    lemma_digits_val_nonneg(s.take(m));
    if m == s.len() {
        assert(s.take(m) =~= s);
    } else {
        lemma_digits_val_prefix(s, m + 1);
        assert(s.take(m + 1).drop_last() =~= s.take(m));
        assert(digits_val(s.take(m + 1)) == digits_val(s.take(m)) * 10 + digit_val(
            s.take(m + 1).last(),
        ));
        assert(digits_val(s.take(m)) <= digits_val(s.take(m + 1))) by (nonlinear_arith)
            requires
                digits_val(s.take(m)) >= 0,
                digit_val(s.take(m + 1).last()) >= 0,
                digits_val(s.take(m + 1)) == digits_val(s.take(m)) * 10 + digit_val(
                    s.take(m + 1).last(),
                ),
        ;
    }
}

/// A digit string denotes a nonnegative number.
proof fn lemma_digits_val_nonneg(s: Seq<char>)
    ensures
        digits_val(s) >= 0,
    decreases s.len(),
{
    if s.len() > 0 {
        lemma_digits_val_nonneg(s.drop_last());
        assert(0 <= digit_val(s.last()));
        assert(digits_val(s) >= 0) by (nonlinear_arith)
            requires
                digits_val(s.drop_last()) >= 0,
                digits_val(s) == digits_val(s.drop_last()) * 10 + digit_val(s.last()),
                digit_val(s.last()) >= 0,
        ;
    }
}

/// The textual form of an operation direction.
pub open spec fn dir_str(d: OperationDirection) -> Seq<char> {
    match d {
        OperationDirection::ToActor => "to_actor"@,
        OperationDirection::ToProvider => "to_provider"@,
        OperationDirection::Both => "both"@,
    }
}

/// The textual form of one operation descriptor.
pub open spec fn enc_op(o: OperationView) -> Seq<char> {
    "{\"name\":\""@ + esc_q(o.name) + ",\"direction\":\""@ + dir_str(o.direction)
        + "\",\"doctext\":\""@ + esc_q(o.doctext) + "}"@
}

/// The comma-led textual form of every operation after the first.
pub open spec fn enc_ops_rest(ops: Seq<OperationView>) -> Seq<char>
    decreases ops.len(),
{
    if ops.len() == 0 {
        Seq::empty()
    } else {
        ","@ + enc_op(ops[0]) + enc_ops_rest(ops.drop_first())
    }
}

/// The textual form of an operation list: comma-separated.
pub open spec fn enc_ops(ops: Seq<OperationView>) -> Seq<char> {
    if ops.len() == 0 {
        Seq::empty()
    } else {
        enc_op(ops[0]) + enc_ops_rest(ops.drop_first())
    }
}

/// The textual form of a descriptor's first three fields, in fixed order.
#[verifier::opaque]
pub open spec fn enc_front(id: Seq<char>, name: Seq<char>, version: Seq<char>) -> Seq<char> {
    "{\"id\":\""@ + esc_q(id) + ",\"name\":\""@ + esc_q(name) + ",\"version\":\""@ + esc_q(
        version,
    )
}

/// The textual form of a descriptor's revision and long description, up to
/// and including the bracket that opens its operation list.
#[verifier::opaque]
pub open spec fn enc_back(revision: u32, long_description: Seq<char>) -> Seq<char> {
    ",\"revision\":"@ + dec_digits(revision as int) + ",\"long_description\":\""@ + esc_q(
        long_description,
    ) + ",\"supported_operations\":["@
}

/// The textual form of a whole capability descriptor, fields in fixed
/// order.
pub open spec fn enc_descriptor(d: DescriptorView) -> Seq<char> {
    enc_front(d.id, d.name, d.version) + enc_back(d.revision, d.long_description) + enc_ops(
        d.supported_operations,
    ) + "]}"@
}

/// Relies on String::push: it appends exactly the pushed character.
#[verifier::external_body]
fn push_char(s: &mut String, c: char)
    ensures
        final(s)@ == old(s)@.push(c),
{
    s.push(c)
}

/// Collects characters into a string.
fn chars_to_string(v: &Vec<char>) -> (r: String)
    ensures
        r@ == v@,
{
    let mut r = String::new();
    let mut i: usize = 0;
    while i < v.len()
        invariant
            i <= v@.len(),
            r@ == v@.take(i as int),
        decreases v@.len() - i,
    {
        push_char(&mut r, v[i]);
        proof {
            assert(r@ =~= v@.take(i as int + 1));
        }
        i += 1;
    }
    proof {
        assert(v@.take(v@.len() as int) =~= v@);
    }
    r
}

/// Appends a string's characters to a character buffer.
fn push_str_chars(out: &mut Vec<char>, s: &str)
    ensures
        final(out)@ == old(out)@ + s@,
{
    let n = s.unicode_len();
    let mut i: usize = 0;
    while i < n
        invariant
            n == s@.len(),
            i <= n,
            out@ == old(out)@ + s@.take(i as int),
        decreases n - i,
    {
        out.push(s.get_char(i));
        proof {
            assert(old(out)@ + s@.take(i as int + 1) =~= (old(out)@ + s@.take(i as int)).push(
                s@[i as int],
            ));
        }
        i += 1;
    }
    proof {
        assert(s@.take(n as int) =~= s@);
    }
}

/// Appends the escaped form of a string, and its closing quote, to a
/// character buffer.
fn push_escaped_q(out: &mut Vec<char>, s: &str)
    ensures
        final(out)@ == old(out)@ + esc_q(s@),
{
    let n = s.unicode_len();
    let mut i: usize = 0;
    while i < n
        invariant
            n == s@.len(),
            i <= n,
            out@ == old(out)@ + esc(s@.take(i as int)),
        decreases n - i,
    {
        let c = s.get_char(i);
        if c == '"' || c == '\\' {
            out.push('\\');
            out.push(c);
        } else {
            out.push(c);
        }
        proof {
            lemma_esc_snoc(s@.take(i as int), c);
            assert(s@.take(i as int).push(c) =~= s@.take(i as int + 1));
            assert(out@ =~= old(out)@ + (esc(s@.take(i as int)) + esc_char(c)));
        }
        i += 1;
    }
    out.push('"');
    proof {
        assert(s@.take(n as int) =~= s@);
        assert(out@ =~= old(out)@ + esc_q(s@));
    }
}

/// Appends the canonical decimal form of a number to a character buffer.
fn push_decimal(out: &mut Vec<char>, n: u32)
    ensures
        final(out)@ == old(out)@ + dec_digits(n as int),
    decreases n,
{
    if n < 10 {
        out.push(digit_of(n));
        proof {
            assert(old(out)@ + dec_digits(n as int) =~= old(out)@.push(digit_char(n as int)));
        }
    } else {
        push_decimal(out, n / 10);
        out.push(digit_of(n % 10));
        proof {
            assert(old(out)@ + dec_digits(n as int) =~= (old(out)@ + dec_digits(
                n as int / 10,
            )).push(digit_char(n as int % 10)));
        }
    }
}

/// The digit character for a value below ten.
fn digit_of(d: u32) -> (c: char)
    requires
        d < 10,
    ensures
        c == digit_char(d as int),
{
    match d {
        0 => '0',
        1 => '1',
        2 => '2',
        3 => '3',
        4 => '4',
        5 => '5',
        6 => '6',
        7 => '7',
        8 => '8',
        _ => '9',
    }
}

/// The textual form of an operation direction, as executable code.
fn dir_text(d: &OperationDirection) -> (s: &'static str)
    ensures
        s@ == dir_str(*d),
{
    match d {
        OperationDirection::ToActor => "to_actor",
        OperationDirection::ToProvider => "to_provider",
        OperationDirection::Both => "both",
    }
}

/// Encodes a capability descriptor into its textual form. The output is
/// exactly [`enc_descriptor`] of the descriptor's value, so the field order
/// of the textual form is fixed by construction.
#[verifier::rlimit(60)]
pub fn encode_descriptor(d: &CapabilityDescriptor) -> (r: String)
    ensures
        r@ == enc_descriptor(d@),
{
    let mut out: Vec<char> = Vec::new();
    push_str_chars(&mut out, "{\"id\":\"");
    push_escaped_q(&mut out, d.id.as_str());
    push_str_chars(&mut out, ",\"name\":\"");
    push_escaped_q(&mut out, d.name.as_str());
    push_str_chars(&mut out, ",\"version\":\"");
    push_escaped_q(&mut out, d.version.as_str());
    push_str_chars(&mut out, ",\"revision\":");
    push_decimal(&mut out, d.revision);
    push_str_chars(&mut out, ",\"long_description\":\"");
    push_escaped_q(&mut out, d.long_description.as_str());
    push_str_chars(&mut out, ",\"supported_operations\":[");
    let ghost list_start = out@;
    let n = d.supported_operations.len();
    let mut i: usize = 0;
    while i < n
        invariant
            n == d.supported_operations@.len(),
            i <= n,
            out@ == list_start + enc_ops(d@.supported_operations.take(i as int)),
            d@.supported_operations.len() == n,
        decreases n - i,
    {
        if i > 0 {
            push_str_chars(&mut out, ",");
        }
        let op = &d.supported_operations[i];
        push_str_chars(&mut out, "{\"name\":\"");
        push_escaped_q(&mut out, op.name.as_str());
        push_str_chars(&mut out, ",\"direction\":\"");
        push_str_chars(&mut out, dir_text(&op.direction));
        push_str_chars(&mut out, "\",\"doctext\":\"");
        push_escaped_q(&mut out, op.doctext.as_str());
        push_str_chars(&mut out, "}");
        proof {
            let ops = d@.supported_operations;
            assert(op@ == ops[i as int]);
            lemma_enc_ops_snoc(ops.take(i as int), ops[i as int]);
            assert(ops.take(i as int).push(ops[i as int]) =~= ops.take(i as int + 1));
            assert(out@ =~= list_start + enc_ops(ops.take(i as int + 1)));
        }
        i += 1;
    }
    push_str_chars(&mut out, "]}");
    proof {
        reveal(enc_front);
        reveal(enc_back);
        assert(d@.supported_operations.take(n as int) =~= d@.supported_operations);
        assert(out@ =~= enc_descriptor(d@));
    }
    chars_to_string(&out)
}

/// Appending one more operation to a list extends its textual form with a
/// comma (except before the first operation) and that operation's form.
pub proof fn lemma_enc_ops_snoc(ops: Seq<OperationView>, o: OperationView)
    ensures
        ops.len() == 0 ==> enc_ops(ops.push(o)) == enc_op(o),
        ops.len() > 0 ==> enc_ops(ops.push(o)) == enc_ops(ops) + ","@ + enc_op(o),
    decreases ops.len(),
{
    if ops.len() == 0 {
        assert(ops.push(o)[0] == o);
        assert(ops.push(o).drop_first() =~= Seq::<OperationView>::empty());
        assert(enc_ops_rest(Seq::<OperationView>::empty()) =~= Seq::<char>::empty());
        assert(enc_ops(ops.push(o)) =~= enc_op(o) + Seq::<char>::empty());
        assert(enc_op(o) + Seq::<char>::empty() =~= enc_op(o));
    } else {
        lemma_enc_ops_rest_snoc(ops.drop_first(), o);
        assert(ops.push(o).drop_first() =~= ops.drop_first().push(o));
        assert(ops.push(o)[0] == ops[0]);
        assert(enc_ops(ops.push(o)) == enc_op(ops[0]) + enc_ops_rest(ops.drop_first().push(o)));
        assert(enc_op(ops[0]) + (enc_ops_rest(ops.drop_first()) + (","@ + enc_op(o))) =~= (enc_op(
            ops[0],
        ) + enc_ops_rest(ops.drop_first())) + ","@ + enc_op(o));
    }
}

/// Skipping past a known prefix of a decomposition yields its continuation.
proof fn lemma_skip_concat(s: Seq<char>, p: int, a: Seq<char>, b: Seq<char>)
    requires
        0 <= p <= s.len(),
        s.skip(p) == a + b,
    ensures
        p + a.len() <= s.len(),
        s.skip(p + a.len()) == b,
{
    let l = a.len() as int;
    assert(s.skip(p).len() == s.len() - p);
    assert forall|i: int| 0 <= i < s.len() - p - l implies s.skip(p + l)[i] == b[i] by {
        assert(s.skip(p)[l + i] == (a + b)[l + i]);
        assert(s.skip(p)[l + i] == s[p + l + i]);
        assert(s.skip(p + l)[i] == s[p + l + i]);
    }
    assert(s.skip(p + l) =~= b);
}

/// Converts a string slice to its character sequence.
fn str_chars(s: &str) -> (r: Vec<char>)
    ensures
        r@ == s@,
{
    let n = s.unicode_len();
    let mut r: Vec<char> = Vec::new();
    let mut i: usize = 0;
    while i < n
        invariant
            n == s@.len(),
            i <= n,
            r@ == s@.take(i as int),
        decreases n - i,
    {
        r.push(s.get_char(i));
        proof {
            assert(r@ =~= s@.take(i as int + 1));
        }
        i += 1;
    }
    proof {
        assert(s@.take(n as int) =~= s@);
    }
    r
}

/// Matches an exact literal at a position: succeeds precisely when the
/// literal's characters stand there.
fn parse_lit(v: &Vec<char>, pos: usize, lit: &str) -> (r: Option<usize>)
    requires
        pos <= v@.len(),
    ensures
        r matches Some(p2) ==> p2 == pos + lit@.len() && p2 <= v@.len() && v@.subrange(
            pos as int,
            p2 as int,
        ) == lit@,
        pos + lit@.len() <= v@.len() && v@.subrange(pos as int, pos as int + lit@.len() as int)
            == lit@ ==> r is Some,
{
    let n = lit.unicode_len();
    if n > v.len() - pos {
        return None;
    }
    let mut j: usize = 0;
    while j < n
        invariant
            n == lit@.len(),
            j <= n,
            pos + n <= v@.len(),
            v@.len() <= usize::MAX,
            forall|m: int| 0 <= m < j ==> v@[pos + m] == lit@[m],
        decreases n - j,
    {
        if v[pos + j] != lit.get_char(j) {
            proof {
                if v@.subrange(pos as int, pos as int + n as int) == lit@ {
                    assert(v@.subrange(pos as int, pos as int + n as int)[j as int] == v@[pos + j]);
                    assert(false);
                }
            }
            return None;
        }
        j += 1;
    }
    proof {
        assert(v@.subrange(pos as int, pos as int + n as int) =~= lit@);
    }
    Some(pos + n)
}

/// What the input must look like at each stage of scanning a quoted,
/// escaped string: with `m` characters already recovered, either the string
/// is done and its closing quote is next, or the escaped form of its next
/// character is next.
proof fn lemma_string_inv_next(v: Seq<char>, pos: int, k: int, m: int, t: Seq<char>, rest: Seq<char>)
    requires
        0 <= pos <= k <= v.len(),
        v.skip(pos) == esc_q(t) + rest,
        0 <= m <= t.len(),
        k == pos + esc(t.take(m)).len(),
    ensures
        k < v.len(),
        m == t.len() ==> v[k] == '"',
        m < t.len() && (t[m] == '"' || t[m] == '\\') ==> v[k] == '\\' && k + 1 < v.len() && v[k + 1]
            == t[m],
        m < t.len() && !(t[m] == '"' || t[m] == '\\') ==> v[k] == t[m] && v[k] != '"' && v[k]
            != '\\',
{
    lemma_esc_split(t, m);
    let a = esc(t.take(m));
    let b = esc(t.skip(m));
    assert(v.skip(pos) == (a + b) + seq!['"'] + rest);
    assert(v.skip(pos).len() == v.len() - pos);
    assert(v.len() - pos == a.len() + b.len() + 1 + rest.len());
    if m == t.len() {
        assert(t.skip(m) =~= Seq::<char>::empty());
        assert(b =~= Seq::<char>::empty());
        assert(v.skip(pos)[k - pos] == (((a + b) + seq!['"']) + rest)[k - pos]);
        assert(v[k] == v.skip(pos)[k - pos]);
        assert((((a + b) + seq!['"']) + rest)[k - pos] == '"');
    } else {
        assert(t.skip(m).len() > 0);
        assert(t.skip(m)[0] == t[m]);
        assert(b == esc_char(t[m]) + esc(t.skip(m).skip(1)));
        assert(b[0] == esc_char(t[m])[0]);
        assert(v[k] == v.skip(pos)[k - pos]);
        assert(v.skip(pos)[k - pos] == b[0]);
        if t[m] == '"' || t[m] == '\\' {
            assert(b[0] == '\\');
            assert(b.len() >= 2);
            assert(b[1] == t[m]);
            assert(v[k + 1] == v.skip(pos)[k + 1 - pos]);
            assert(v.skip(pos)[k + 1 - pos] == b[1]);
        } else {
            assert(b[0] == t[m]);
        }
    }
}

/// Scans a quoted, escaped string at a position: succeeds on exactly the
/// strings [`esc_q`] produces, recovering the original characters and
/// stopping just past the closing quote.
fn parse_string(v: &Vec<char>, pos: usize) -> (r: Option<(String, usize)>)
    requires
        pos <= v@.len(),
    ensures
        r matches Some(sp) ==> pos <= sp.1 <= v@.len() && v@.subrange(pos as int, sp.1 as int)
            == esc_q(sp.0@),
        forall|t: Seq<char>, rest: Seq<char>|
            #![trigger esc_q(t).add(rest)]
            v@.skip(pos as int) == esc_q(t) + rest ==> (r matches Some(sp) && sp.0@ == t && sp.1
                == pos + esc_q(t).len()),
{
    let mut acc: Vec<char> = Vec::new();
    let mut k: usize = pos;
    while k < v.len()
        invariant
            pos <= k <= v@.len(),
            v@.subrange(pos as int, k as int) == esc(acc@),
            forall|t: Seq<char>, rest: Seq<char>|
                #![trigger esc_q(t).add(rest)]
                v@.skip(pos as int) == esc_q(t) + rest ==> acc@.len() <= t.len() && acc@ == t.take(
                    acc@.len() as int,
                ) && k == pos + esc(t.take(acc@.len() as int)).len(),
        decreases v@.len() - k,
    {
        let ghost prev = acc@;
        let c = v[k];
        if c == '"' {
            let s = chars_to_string(&acc);
            proof {
                assert(v@.subrange(pos as int, k as int + 1) =~= esc(acc@) + seq!['"']);
                assert forall|t: Seq<char>, rest: Seq<char>|
                    #![trigger esc_q(t).add(rest)]
                    v@.skip(pos as int) == esc_q(t) + rest implies acc@ == t && k + 1 == pos
                    + esc_q(t).len() by {
                    let m = acc@.len() as int;
                    lemma_string_inv_next(v@, pos as int, k as int, m, t, rest);
                    if m < t.len() {
                        assert(false);
                    }
                    assert(t.take(m) =~= t);
                }
            }
            return Some((s, k + 1));
        } else if c == '\\' {
            if k + 1 == v.len() {
                proof {
                    assert forall|t: Seq<char>, rest: Seq<char>|
                        #![trigger esc_q(t).add(rest)]
                        !(v@.skip(pos as int) == esc_q(t) + rest) by {
                        if v@.skip(pos as int) == esc_q(t) + rest {
                            let m = prev.len() as int;
                            lemma_string_inv_next(v@, pos as int, k as int, m, t, rest);
                            assert(false);
                        }
                    }
                }
                return None;
            }
            let c2 = v[k + 1];
            if c2 == '"' || c2 == '\\' {
                acc.push(c2);
                proof {
                    lemma_esc_snoc(prev, c2);
                    assert(v@.subrange(pos as int, k as int + 2) =~= esc(prev) + seq!['\\', c2]);
                    assert(esc_char(c2) =~= seq!['\\', c2]);
                    assert forall|t: Seq<char>, rest: Seq<char>|
                        #![trigger esc_q(t).add(rest)]
                        v@.skip(pos as int) == esc_q(t) + rest implies acc@.len() <= t.len()
                        && acc@ == t.take(acc@.len() as int) && k + 2 == pos + esc(
                        t.take(acc@.len() as int),
                    ).len() by {
                        let m = prev.len() as int;
                        lemma_string_inv_next(v@, pos as int, k as int, m, t, rest);
                        assert(m < t.len());
                        assert(t[m] == '"' || t[m] == '\\');
                        assert(v@[k as int + 1] == t[m]);
                        assert(acc@ =~= t.take(m + 1));
                        lemma_esc_snoc(t.take(m), t[m]);
                        assert(t.take(m).push(t[m]) =~= t.take(m + 1));
                    }
                }
                k += 2;
            } else {
                proof {
                    assert forall|t: Seq<char>, rest: Seq<char>|
                        #![trigger esc_q(t).add(rest)]
                        !(v@.skip(pos as int) == esc_q(t) + rest) by {
                        if v@.skip(pos as int) == esc_q(t) + rest {
                            let m = prev.len() as int;
                            lemma_string_inv_next(v@, pos as int, k as int, m, t, rest);
                            assert(m < t.len());
                            assert(t[m] == '"' || t[m] == '\\');
                            assert(v@[k as int + 1] == t[m]);
                            assert(false);
                        }
                    }
                }
                return None;
            }
        } else {
            acc.push(c);
            proof {
                lemma_esc_snoc(prev, c);
                assert(esc_char(c) =~= seq![c]);
                assert(v@.subrange(pos as int, k as int + 1) =~= esc(prev) + seq![c]);
                assert forall|t: Seq<char>, rest: Seq<char>|
                    #![trigger esc_q(t).add(rest)]
                    v@.skip(pos as int) == esc_q(t) + rest implies acc@.len() <= t.len() && acc@
                    == t.take(acc@.len() as int) && k + 1 == pos + esc(
                    t.take(acc@.len() as int),
                ).len() by {
                    let m = prev.len() as int;
                    lemma_string_inv_next(v@, pos as int, k as int, m, t, rest);
                    assert(m < t.len());
                    assert(!(t[m] == '"' || t[m] == '\\'));
                    assert(t[m] == c);
                    assert(acc@ =~= t.take(m + 1));
                    lemma_esc_snoc(t.take(m), t[m]);
                    assert(t.take(m).push(t[m]) =~= t.take(m + 1));
                }
            }
            k += 1;
        }
    }
    proof {
        assert forall|t: Seq<char>, rest: Seq<char>|
            #![trigger esc_q(t).add(rest)]
            !(v@.skip(pos as int) == esc_q(t) + rest) by {
            if v@.skip(pos as int) == esc_q(t) + rest {
                let m = acc@.len() as int;
                lemma_string_inv_next(v@, pos as int, k as int, m, t, rest);
                assert(false);
            }
        }
    }
    None
}

/// Scans a canonical decimal number at a position: succeeds on exactly the
/// strings [`dec_digits`] produces for a number that fits in 32 bits,
/// provided no digit follows.
fn parse_u32(v: &Vec<char>, pos: usize) -> (r: Option<(u32, usize)>)
    requires
        pos <= v@.len(),
    ensures
        r matches Some(xp) ==> pos <= xp.1 <= v@.len() && v@.subrange(pos as int, xp.1 as int)
            == dec_digits(xp.0 as int),
        forall|x: u32, rest: Seq<char>|
            #![trigger dec_digits(x as int).add(rest)]
            v@.skip(pos as int) == dec_digits(x as int) + rest && (rest.len() == 0 || !is_digit(
                rest[0],
            )) ==> (r matches Some(xp) && xp.0 == x && xp.1 == pos + dec_digits(x as int).len()),
{
    if pos == v.len() {
        proof {
            assert forall|x: u32, rest: Seq<char>|
                #![trigger dec_digits(x as int).add(rest)]
                !(v@.skip(pos as int) == dec_digits(x as int) + rest) by {
                if v@.skip(pos as int) == dec_digits(x as int) + rest {
                    lemma_dec_digits(x as int);
                    assert(v@.skip(pos as int).len() == 0);
                    assert(false);
                }
            }
        }
        return None;
    }
    let c0 = v[pos];
    let d0 = digit_value(c0);
    match d0 {
        None => {
            proof {
                assert forall|x: u32, rest: Seq<char>|
                    #![trigger dec_digits(x as int).add(rest)]
                    !(v@.skip(pos as int) == dec_digits(x as int) + rest) by {
                    if v@.skip(pos as int) == dec_digits(x as int) + rest {
                        lemma_dec_digits(x as int);
                        assert(v@.skip(pos as int)[0] == dec_digits(x as int)[0]);
                        assert(v@[pos as int] == dec_digits(x as int)[0]);
                        assert(is_digit(dec_digits(x as int)[0]));
                        assert(false);
                    }
                }
            }
            return None;
        },
        Some(first) => {
            if first == 0 {
                proof {
                    assert(v@.subrange(pos as int, pos as int + 1) =~= seq!['0']);
                    assert(dec_digits(0int) =~= seq!['0']);
                    assert forall|x: u32, rest: Seq<char>|
                        #![trigger dec_digits(x as int).add(rest)]
                        v@.skip(pos as int) == dec_digits(x as int) + rest && (rest.len() == 0
                            || !is_digit(rest[0])) implies x == 0 && pos + 1 == pos + dec_digits(
                        x as int,
                    ).len() by {
                        lemma_dec_digits(x as int);
                        assert(v@[pos as int] == v@.skip(pos as int)[0]);
                        assert(dec_digits(x as int)[0] == '0');
                        if dec_digits(x as int).len() > 1 {
                            assert(false);
                        }
                        assert(dec_digits(x as int) =~= seq!['0']);
                        assert(digits_val(dec_digits(x as int)) == x);
                        assert(digits_val(seq!['0']) == digits_val(
                            Seq::<char>::empty(),
                        ) * 10 + digit_val('0'));
                    }
                }
                return Some((0, pos + 1));
            }
            let mut value: u64 = first as u64;
            let mut k: usize = pos + 1;
            proof {
                assert(v@.subrange(pos as int, pos as int + 1) =~= seq![c0]);
                assert(seq![c0].drop_last() =~= Seq::<char>::empty());
                assert(digits_val(Seq::<char>::empty()) == 0);
                assert(seq![c0].last() == c0);
                assert(digits_val(seq![c0]) == 0 * 10 + digit_val(c0));
            }
            while k < v.len() && digit_value(v[k]).is_some()
                invariant
                    pos < k <= v@.len(),
                    forall|m: int| pos <= m < k ==> is_digit(#[trigger] v@[m]),
                    v@[pos as int] != '0',
                    value == digits_val(v@.subrange(pos as int, k as int)),
                    value <= u32::MAX,
                decreases v@.len() - k,
            {
                let d = digit_value(v[k]).unwrap();
                let next: u64 = value * 10 + (d as u64);
                if next > u32::MAX as u64 {
                    proof {
                        assert forall|x: u32, rest: Seq<char>|
                            #![trigger dec_digits(x as int).add(rest)]
                            !(v@.skip(pos as int) == dec_digits(x as int) + rest && (rest.len()
                                == 0 || !is_digit(rest[0]))) by {
                            if v@.skip(pos as int) == dec_digits(x as int) + rest && (rest.len()
                                == 0 || !is_digit(rest[0])) {
                                lemma_dec_digits(x as int);
                                let dd = dec_digits(x as int);
                                assert(k - pos + 1 <= dd.len()) by {
                                    if k - pos + 1 > dd.len() {
                                        assert(rest.len() > 0);
                                        assert(rest[0] == v@.skip(pos as int)[dd.len() as int]);
                                        assert(rest[0] == v@[pos + dd.len()]);
                                        assert(is_digit(v@[pos + dd.len()]));
                                        assert(false);
                                    }
                                }
                                assert forall|i: int|
                                    0 <= i < k - pos + 1 implies #[trigger] dd.take(
                                    k - pos + 1,
                                )[i] == v@.subrange(pos as int, k as int + 1)[i] by {
                                    assert(dd[i] == v@.skip(pos as int)[i]);
                                    assert(dd[i] == v@[pos + i]);
                                }
                                assert(v@.subrange(pos as int, k as int + 1) =~= dd.take(
                                    k - pos + 1,
                                ));
                                assert(v@.subrange(pos as int, k as int + 1).drop_last() =~= v@.subrange(
                                    pos as int,
                                    k as int,
                                ));
                                assert(digits_val(v@.subrange(pos as int, k as int + 1)) == value
                                    * 10 + digit_val(v@[k as int]));
                                lemma_digits_val_prefix(dd, k - pos + 1);
                                assert(digits_val(dd) == x);
                                assert(false);
                            }
                        }
                    }
                    return None;
                }
                value = next;
                k += 1;
                proof {
                    assert(v@.subrange(pos as int, k as int).drop_last() =~= v@.subrange(
                        pos as int,
                        k as int - 1,
                    ));
                    assert(v@.subrange(pos as int, k as int).last() == v@[k as int - 1]);
                }
            }
            proof {
                let consumed = v@.subrange(pos as int, k as int);
                assert(consumed[0] == v@[pos as int]);
                lemma_digits_canonical(consumed);
                assert(consumed == dec_digits(value as int));
                assert forall|x: u32, rest: Seq<char>|
                    #![trigger dec_digits(x as int).add(rest)]
                    v@.skip(pos as int) == dec_digits(x as int) + rest && (rest.len() == 0
                        || !is_digit(rest[0])) implies value == x && k == pos + dec_digits(
                    x as int,
                ).len() by {
                    lemma_dec_digits(x as int);
                    let dd = dec_digits(x as int);
                    assert(k - pos <= dd.len()) by {
                        if k - pos > dd.len() {
                            assert(rest.len() > 0);
                            assert(rest[0] == v@.skip(pos as int)[dd.len() as int]);
                            assert(rest[0] == v@[pos + dd.len()]);
                            assert(is_digit(v@[pos + dd.len()]));
                            assert(false);
                        }
                    }
                    assert(dd.len() <= k - pos) by {
                        if dd.len() > k - pos {
                            assert(dd[k - pos] == v@.skip(pos as int)[k - pos]);
                            assert(dd[k - pos] == v@[k as int]);
                            assert(is_digit(dd[k - pos]));
                            if k == v@.len() {
                                assert(v@.skip(pos as int).len() == v@.len() - pos);
                                assert(false);
                            } else {
                                assert(!is_digit(v@[k as int]));
                                assert(false);
                            }
                        }
                    }
                    assert forall|i: int| 0 <= i < k - pos implies consumed[i] == dd[i] by {
                        assert(dd[i] == v@.skip(pos as int)[i]);
                        assert(dd[i] == v@[pos + i]);
                    }
                    assert(consumed =~= dd);
                    assert(digits_val(dd) == x);
                }
            }
            return Some((value as u32, k));
        },
    }
}

/// The numeric value of a digit character, if it is one.
fn digit_value(c: char) -> (r: Option<u32>)
    ensures
        r is Some <==> is_digit(c),
        r matches Some(d) ==> d == digit_val(c) && d <= 9,
{
    match c {
        '0' => Some(0),
        '1' => Some(1),
        '2' => Some(2),
        '3' => Some(3),
        '4' => Some(4),
        '5' => Some(5),
        '6' => Some(6),
        '7' => Some(7),
        '8' => Some(8),
        '9' => Some(9),
        _ => None,
    }
}

/// A known prefix of a decomposition stands at its position.
proof fn lemma_skip_prefix(s: Seq<char>, p: int, a: Seq<char>, b: Seq<char>)
    requires
        0 <= p <= s.len(),
        s.skip(p) == a + b,
    ensures
        p + a.len() <= s.len(),
        s.subrange(p, p + a.len()) == a,
{
    assert(s.skip(p).len() == s.len() - p);
    assert forall|i: int| 0 <= i < a.len() implies s.subrange(p, p + a.len() as int)[i]
        == a[i] by {
        assert(s.skip(p)[i] == (a + b)[i]);
        assert(s.skip(p)[i] == s[p + i]);
    }
    assert(s.subrange(p, p + a.len()) =~= a);
}

/// Scans an operation direction at a position: exactly one of the three
/// direction words.
fn parse_direction(v: &Vec<char>, pos: usize) -> (r: Option<(OperationDirection, usize)>)
    requires
        pos <= v@.len(),
    ensures
        r matches Some(dp) ==> pos <= dp.1 <= v@.len() && v@.subrange(pos as int, dp.1 as int)
            == dir_str(dp.0),
        forall|d: OperationDirection, rest: Seq<char>|
            #![trigger dir_str(d).add(rest)]
            v@.skip(pos as int) == dir_str(d) + rest ==> (r matches Some(dp) && dp.0 == d && dp.1
                == pos + dir_str(d).len()),
{
    proof {
        reveal_strlit("to_actor");
        reveal_strlit("to_provider");
        reveal_strlit("both");
    }
    let r1 = parse_lit(v, pos, "to_actor");
    match r1 {
        Some(p2) => {
            proof {
                assert forall|d: OperationDirection, rest: Seq<char>|
                    #![trigger dir_str(d).add(rest)]
                    v@.skip(pos as int) == dir_str(d) + rest implies d
                    == OperationDirection::ToActor && p2 == pos + dir_str(d).len() by {
                    lemma_skip_prefix(v@, pos as int, dir_str(d), rest);
                    match d {
                        OperationDirection::ToActor => {},
                        OperationDirection::ToProvider => {
                            assert(v@.subrange(pos as int, pos as int + 8)[3] == v@[pos + 3]);
                            assert(v@.subrange(pos as int, pos as int + 11)[3] == v@[pos + 3]);
                            assert(false);
                        },
                        OperationDirection::Both => {
                            assert(v@.subrange(pos as int, pos as int + 8)[0] == v@[pos as int]);
                            assert(v@.subrange(pos as int, pos as int + 4)[0] == v@[pos as int]);
                            assert(false);
                        },
                    }
                }
            }
            return Some((OperationDirection::ToActor, p2));
        },
        None => {},
    }
    let r2 = parse_lit(v, pos, "to_provider");
    match r2 {
        Some(p2) => {
            proof {
                assert forall|d: OperationDirection, rest: Seq<char>|
                    #![trigger dir_str(d).add(rest)]
                    v@.skip(pos as int) == dir_str(d) + rest implies d
                    == OperationDirection::ToProvider && p2 == pos + dir_str(d).len() by {
                    lemma_skip_prefix(v@, pos as int, dir_str(d), rest);
                    match d {
                        OperationDirection::ToActor => {
                            assert(r1 is Some);
                            assert(false);
                        },
                        OperationDirection::ToProvider => {},
                        OperationDirection::Both => {
                            assert(v@.subrange(pos as int, pos as int + 11)[0] == v@[pos as int]);
                            assert(v@.subrange(pos as int, pos as int + 4)[0] == v@[pos as int]);
                            assert(false);
                        },
                    }
                }
            }
            return Some((OperationDirection::ToProvider, p2));
        },
        None => {},
    }
    let r3 = parse_lit(v, pos, "both");
    match r3 {
        Some(p2) => {
            proof {
                assert forall|d: OperationDirection, rest: Seq<char>|
                    #![trigger dir_str(d).add(rest)]
                    v@.skip(pos as int) == dir_str(d) + rest implies d == OperationDirection::Both
                    && p2 == pos + dir_str(d).len() by {
                    lemma_skip_prefix(v@, pos as int, dir_str(d), rest);
                    match d {
                        OperationDirection::ToActor => {
                            assert(r1 is Some);
                            assert(false);
                        },
                        OperationDirection::ToProvider => {
                            assert(r2 is Some);
                            assert(false);
                        },
                        OperationDirection::Both => {},
                    }
                }
            }
            return Some((OperationDirection::Both, p2));
        },
        None => {},
    }
    proof {
        assert forall|d: OperationDirection, rest: Seq<char>|
            #![trigger dir_str(d).add(rest)]
            !(v@.skip(pos as int) == dir_str(d) + rest) by {
            if v@.skip(pos as int) == dir_str(d) + rest {
                lemma_skip_prefix(v@, pos as int, dir_str(d), rest);
                match d {
                    OperationDirection::ToActor => {
                        assert(r1 is Some);
                    },
                    OperationDirection::ToProvider => {
                        assert(r2 is Some);
                    },
                    OperationDirection::Both => {
                        assert(r3 is Some);
                    },
                }
                assert(false);
            }
        }
    }
    None
}

/// The stages of one operation's textual form, peeled off left to right.
proof fn lemma_op_decomposition(v: Seq<char>, pos: int, o: OperationView, rest: Seq<char>)
    requires
        0 <= pos <= v.len(),
        v.skip(pos) == enc_op(o) + rest,
    ensures
        pos + enc_op(o).len() <= v.len(),
        enc_op(o).len() == 37 + esc_q(o.name).len() + dir_str(o.direction).len() + esc_q(
            o.doctext,
        ).len(),
        v.subrange(pos, pos + 9) == "{\"name\":\""@,
        v.skip(pos + 9) == esc_q(o.name).add(
            ",\"direction\":\""@ + (dir_str(o.direction) + ("\",\"doctext\":\""@ + (esc_q(
                o.doctext,
            ) + ("}"@ + rest)))),
        ),
        v.subrange(
            pos + 9 + esc_q(o.name).len() as int,
            pos + 9 + esc_q(o.name).len() + 14,
        ) == ",\"direction\":\""@,
        v.skip(pos + 9 + esc_q(o.name).len() + 14) == dir_str(o.direction).add(
            "\",\"doctext\":\""@ + (esc_q(o.doctext) + ("}"@ + rest)),
        ),
        v.subrange(
            pos + 9 + esc_q(o.name).len() + 14 + dir_str(o.direction).len() as int,
            pos + 9 + esc_q(o.name).len() + 14 + dir_str(o.direction).len() + 13,
        ) == "\",\"doctext\":\""@,
        v.skip(pos + 9 + esc_q(o.name).len() + 14 + dir_str(o.direction).len() + 13) == esc_q(
            o.doctext,
        ).add("}"@ + rest),
        v.subrange(
            pos + 9 + esc_q(o.name).len() + 14 + dir_str(o.direction).len() + 13 + esc_q(
                o.doctext,
            ).len() as int,
            pos + 9 + esc_q(o.name).len() + 14 + dir_str(o.direction).len() + 13 + esc_q(
                o.doctext,
            ).len() + 1,
        ) == "}"@,
{
    reveal_strlit("{\"name\":\"");
    reveal_strlit(",\"direction\":\"");
    reveal_strlit("\",\"doctext\":\"");
    reveal_strlit("}");
    let l1 = "{\"name\":\""@;
    let l2 = ",\"direction\":\""@;
    let l3 = "\",\"doctext\":\""@;
    let l4 = "}"@;
    let t1 = esc_q(o.name) + (l2 + (dir_str(o.direction) + (l3 + (esc_q(o.doctext) + (l4
        + rest)))));
    assert(v.skip(pos) =~= l1 + t1);
    lemma_skip_concat(v, pos, l1, t1);
    lemma_skip_prefix(v, pos, l1, t1);
    let p1 = pos + 9;
    let t2 = l2 + (dir_str(o.direction) + (l3 + (esc_q(o.doctext) + (l4 + rest))));
    lemma_skip_concat(v, p1, esc_q(o.name), t2);
    let p2 = p1 + esc_q(o.name).len();
    let t3 = dir_str(o.direction) + (l3 + (esc_q(o.doctext) + (l4 + rest)));
    lemma_skip_concat(v, p2, l2, t3);
    lemma_skip_prefix(v, p2, l2, t3);
    let p3 = p2 + 14;
    let t4 = l3 + (esc_q(o.doctext) + (l4 + rest));
    lemma_skip_concat(v, p3, dir_str(o.direction), t4);
    let p4 = p3 + dir_str(o.direction).len();
    let t5 = esc_q(o.doctext) + (l4 + rest);
    lemma_skip_concat(v, p4, l3, t5);
    lemma_skip_prefix(v, p4, l3, t5);
    let p5 = p4 + 13;
    let t6 = l4 + rest;
    lemma_skip_concat(v, p5, esc_q(o.doctext), t6);
    let p6 = p5 + esc_q(o.doctext).len();
    lemma_skip_concat(v, p6, l4, rest);
    lemma_skip_prefix(v, p6, l4, rest);
}

/// Scans one operation's textual form at a position.
fn parse_op(v: &Vec<char>, pos: usize) -> (r: Option<(OperationDescriptor, usize)>)
    requires
        pos <= v@.len(),
    ensures
        r matches Some(op) ==> pos <= op.1 <= v@.len() && v@.subrange(pos as int, op.1 as int)
            == enc_op(op.0@),
        forall|o: OperationView, rest: Seq<char>|
            #![trigger enc_op(o).add(rest)]
            v@.skip(pos as int) == enc_op(o) + rest ==> (r matches Some(op) && op.0@ == o && op.1
                == pos + enc_op(o).len()),
{
    proof {
        reveal_strlit("{\"name\":\"");
        reveal_strlit(",\"direction\":\"");
        reveal_strlit("\",\"doctext\":\"");
        reveal_strlit("}");
    }
    let r1 = parse_lit(v, pos, "{\"name\":\"");
    let p1 = match r1 {
        Some(p) => p,
        None => {
            proof {
                assert forall|o: OperationView, rest: Seq<char>|
                    #![trigger enc_op(o).add(rest)]
                    !(v@.skip(pos as int) == enc_op(o) + rest) by {
                    if v@.skip(pos as int) == enc_op(o) + rest {
                        lemma_op_decomposition(v@, pos as int, o, rest);
                        assert(false);
                    }
                }
            }
            return None;
        },
    };
    let r2 = parse_string(v, p1);
    let (name, p2) = match r2 {
        Some(sp) => sp,
        None => {
            proof {
                assert forall|o: OperationView, rest: Seq<char>|
                    #![trigger enc_op(o).add(rest)]
                    !(v@.skip(pos as int) == enc_op(o) + rest) by {
                    if v@.skip(pos as int) == enc_op(o) + rest {
                        lemma_op_decomposition(v@, pos as int, o, rest);
                        assert(false);
                    }
                }
            }
            return None;
        },
    };
    let r3 = parse_lit(v, p2, ",\"direction\":\"");
    let p3 = match r3 {
        Some(p) => p,
        None => {
            proof {
                assert forall|o: OperationView, rest: Seq<char>|
                    #![trigger enc_op(o).add(rest)]
                    !(v@.skip(pos as int) == enc_op(o) + rest) by {
                    if v@.skip(pos as int) == enc_op(o) + rest {
                        lemma_op_decomposition(v@, pos as int, o, rest);
                        assert(name@ == o.name && p2 == p1 + esc_q(o.name).len());
                        assert(false);
                    }
                }
            }
            return None;
        },
    };
    let r4 = parse_direction(v, p3);
    let (direction, p4) = match r4 {
        Some(dp) => dp,
        None => {
            proof {
                assert forall|o: OperationView, rest: Seq<char>|
                    #![trigger enc_op(o).add(rest)]
                    !(v@.skip(pos as int) == enc_op(o) + rest) by {
                    if v@.skip(pos as int) == enc_op(o) + rest {
                        lemma_op_decomposition(v@, pos as int, o, rest);
                        assert(name@ == o.name && p2 == p1 + esc_q(o.name).len());
                        assert(false);
                    }
                }
            }
            return None;
        },
    };
    let r5 = parse_lit(v, p4, "\",\"doctext\":\"");
    let p5 = match r5 {
        Some(p) => p,
        None => {
            proof {
                assert forall|o: OperationView, rest: Seq<char>|
                    #![trigger enc_op(o).add(rest)]
                    !(v@.skip(pos as int) == enc_op(o) + rest) by {
                    if v@.skip(pos as int) == enc_op(o) + rest {
                        lemma_op_decomposition(v@, pos as int, o, rest);
                        assert(name@ == o.name && p2 == p1 + esc_q(o.name).len());
                        assert(direction == o.direction && p4 == p3 + dir_str(o.direction).len());
                        assert(false);
                    }
                }
            }
            return None;
        },
    };
    let r6 = parse_string(v, p5);
    let (doctext, p6) = match r6 {
        Some(sp) => sp,
        None => {
            proof {
                assert forall|o: OperationView, rest: Seq<char>|
                    #![trigger enc_op(o).add(rest)]
                    !(v@.skip(pos as int) == enc_op(o) + rest) by {
                    if v@.skip(pos as int) == enc_op(o) + rest {
                        lemma_op_decomposition(v@, pos as int, o, rest);
                        assert(name@ == o.name && p2 == p1 + esc_q(o.name).len());
                        assert(direction == o.direction && p4 == p3 + dir_str(o.direction).len());
                        assert(false);
                    }
                }
            }
            return None;
        },
    };
    let r7 = parse_lit(v, p6, "}");
    let p7 = match r7 {
        Some(p) => p,
        None => {
            proof {
                assert forall|o: OperationView, rest: Seq<char>|
                    #![trigger enc_op(o).add(rest)]
                    !(v@.skip(pos as int) == enc_op(o) + rest) by {
                    if v@.skip(pos as int) == enc_op(o) + rest {
                        lemma_op_decomposition(v@, pos as int, o, rest);
                        assert(name@ == o.name && p2 == p1 + esc_q(o.name).len());
                        assert(direction == o.direction && p4 == p3 + dir_str(o.direction).len());
                        assert(doctext@ == o.doctext && p6 == p5 + esc_q(o.doctext).len());
                        assert(false);
                    }
                }
            }
            return None;
        },
    };
    let op = OperationDescriptor { name, direction, doctext };
    proof {
        assert(v@.subrange(pos as int, p2 as int) =~= v@.subrange(pos as int, p1 as int)
            + v@.subrange(p1 as int, p2 as int));
        assert(v@.subrange(pos as int, p3 as int) =~= v@.subrange(pos as int, p2 as int)
            + v@.subrange(p2 as int, p3 as int));
        assert(v@.subrange(pos as int, p4 as int) =~= v@.subrange(pos as int, p3 as int)
            + v@.subrange(p3 as int, p4 as int));
        assert(v@.subrange(pos as int, p5 as int) =~= v@.subrange(pos as int, p4 as int)
            + v@.subrange(p4 as int, p5 as int));
        assert(v@.subrange(pos as int, p6 as int) =~= v@.subrange(pos as int, p5 as int)
            + v@.subrange(p5 as int, p6 as int));
        assert(v@.subrange(pos as int, p7 as int) =~= v@.subrange(pos as int, p6 as int)
            + v@.subrange(p6 as int, p7 as int));
        assert(v@.subrange(pos as int, p7 as int) == enc_op(op@));
        assert forall|o: OperationView, rest: Seq<char>|
            #![trigger enc_op(o).add(rest)]
            v@.skip(pos as int) == enc_op(o) + rest implies op@ == o && p7 == pos + enc_op(
            o,
        ).len() by {
            lemma_op_decomposition(v@, pos as int, o, rest);
            assert(name@ == o.name && p2 == p1 + esc_q(o.name).len());
            assert(direction == o.direction && p4 == p3 + dir_str(o.direction).len());
            assert(doctext@ == o.doctext && p6 == p5 + esc_q(o.doctext).len());
        }
    }
    Some((op, p7))
}

/// An operation list's textual form splits at any point after the first
/// operation.
proof fn lemma_enc_ops_rest_split(s: Seq<OperationView>, j: int)
    requires
        0 <= j <= s.len(),
    ensures
        enc_ops_rest(s) == enc_ops_rest(s.take(j)) + enc_ops_rest(s.skip(j)),
    decreases j,
{
    if j == 0 {
        assert(s.take(0) =~= Seq::<OperationView>::empty());
        assert(s.skip(0) =~= s);
        assert(enc_ops_rest(Seq::<OperationView>::empty()) =~= Seq::<char>::empty());
        assert(Seq::<char>::empty() + enc_ops_rest(s) =~= enc_ops_rest(s));
    } else {
        let df = s.drop_first();
        lemma_enc_ops_rest_split(df, j - 1);
        assert(df.take(j - 1) =~= s.take(j).drop_first());
        assert(df.skip(j - 1) =~= s.skip(j));
        assert(s.take(j)[0] == s[0]);
        assert(enc_ops_rest(s.take(j)) == ","@ + enc_op(s[0]) + enc_ops_rest(s.take(
            j,
        ).drop_first()));
        assert(","@ + enc_op(s[0]) + (enc_ops_rest(df.take(j - 1)) + enc_ops_rest(df.skip(j - 1)))
            =~= (","@ + enc_op(s[0]) + enc_ops_rest(df.take(j - 1))) + enc_ops_rest(
            df.skip(j - 1),
        ));
    }
}

proof fn lemma_enc_ops_split(t: Seq<OperationView>, m: int)
    requires
        1 <= m <= t.len(),
    ensures
        enc_ops(t) == enc_ops(t.take(m)) + enc_ops_rest(t.skip(m)),
{
    let df = t.drop_first();
    lemma_enc_ops_rest_split(df, m - 1);
    assert(df.take(m - 1) =~= t.take(m).drop_first());
    assert(df.skip(m - 1) =~= t.skip(m));
    assert(t.take(m)[0] == t[0]);
    assert(enc_ops(t.take(m)) == enc_op(t[0]) + enc_ops_rest(t.take(m).drop_first()));
    assert(enc_op(t[0]) + (enc_ops_rest(df.take(m - 1)) + enc_ops_rest(df.skip(m - 1))) =~= (
    enc_op(t[0]) + enc_ops_rest(df.take(m - 1))) + enc_ops_rest(df.skip(m - 1)));
}

/// What the input must look like at each stage of scanning an operation
/// list that is followed by a closing bracket: with `m` operations already
/// recovered, either the list is done and the bracket is next, or a comma
/// and the next operation's form are next.
proof fn lemma_ops_inv_next(
    v: Seq<char>,
    pos: int,
    k: int,
    m: int,
    t: Seq<OperationView>,
    rest: Seq<char>,
)
    requires
        0 <= pos <= k <= v.len(),
        v.skip(pos) == enc_ops(t) + rest,
        rest.len() > 0,
        rest[0] == ']',
        1 <= m <= t.len(),
        k == pos + enc_ops(t.take(m)).len(),
    ensures
        k < v.len(),
        m == t.len() ==> v[k] == ']',
        m < t.len() ==> v[k] == ',' && k + 1 <= v.len() && v.skip(k + 1) == enc_op(t[m]).add(
            enc_ops_rest(t.skip(m).drop_first()) + rest,
        ),
{
    reveal_strlit(",");
    lemma_enc_ops_split(t, m);
    let a = enc_ops(t.take(m));
    let b = enc_ops_rest(t.skip(m));
    assert(v.skip(pos) == (a + b) + rest);
    assert(v.skip(pos) =~= a + (b + rest));
    lemma_skip_concat(v, pos, a, b + rest);
    assert(v.skip(k) == b + rest);
    if m == t.len() {
        assert(t.skip(m) =~= Seq::<OperationView>::empty());
        assert(b =~= Seq::<char>::empty());
        assert(v.skip(k) =~= rest);
        assert(v[k] == v.skip(k)[0]);
    } else {
        assert(t.skip(m).len() > 0);
        assert(t.skip(m)[0] == t[m]);
        assert(b == ","@ + enc_op(t[m]) + enc_ops_rest(t.skip(m).drop_first()));
        assert(v.skip(k)[0] == (b + rest)[0]);
        assert((b + rest)[0] == b[0]);
        assert(b[0] == (","@ + enc_op(t[m]))[0]);
        assert(","@.len() == 1);
        assert(b[0] == ","@[0]);
        assert(v[k] == v.skip(k)[0]);
        assert(v.skip(k) =~= ","@ + (enc_op(t[m]) + (enc_ops_rest(t.skip(m).drop_first())
            + rest)));
        lemma_skip_concat(v, k, ","@, enc_op(t[m]) + (enc_ops_rest(t.skip(m).drop_first())
            + rest));
    }
}

/// Law: the textual form is lossless. Encoding any descriptor and decoding
/// the result yields a descriptor with exactly the same value, and the
/// field order of the form is fixed by [`enc_descriptor`].
pub fn descriptor_text_round_trip(d: &CapabilityDescriptor) -> (r: CapabilityDescriptor)
    ensures
        r@ == d@,
{
    let encoded = encode_descriptor(d);
    let decoded = decode_descriptor(encoded.as_str());
    match decoded {
        Some(x) => x,
        None => {
            proof {
                assert(false);
            }
            d.clone()
        },
    }
}

/// Scans a comma-separated operation list at a position, stopping at, and
/// not consuming, the closing bracket that must follow it.
#[verifier::rlimit(60)]
fn parse_ops(v: &Vec<char>, pos: usize) -> (r: Option<(Vec<OperationDescriptor>, usize)>)
    requires
        pos <= v@.len(),
    ensures
        r matches Some(op2) ==> pos <= op2.1 <= v@.len() && v@.subrange(pos as int, op2.1 as int)
            == enc_ops(op2.0@.map_values(|o: OperationDescriptor| o@)),
        forall|t: Seq<OperationView>, rest: Seq<char>|
            #![trigger enc_ops(t).add(rest)]
            v@.skip(pos as int) == enc_ops(t) + rest && rest.len() > 0 && rest[0] == ']' ==> (
            r matches Some(op2) && op2.0@.map_values(|o: OperationDescriptor| o@) == t && op2.1
                == pos + enc_ops(t).len()),
{
    proof {
        reveal_strlit("{\"name\":\"");
        reveal_strlit(",");
    }
    if pos == v.len() {
        proof {
            assert forall|t: Seq<OperationView>, rest: Seq<char>|
                #![trigger enc_ops(t).add(rest)]
                !(v@.skip(pos as int) == enc_ops(t) + rest && rest.len() > 0 && rest[0]
                    == ']') by {
                if v@.skip(pos as int) == enc_ops(t) + rest && rest.len() > 0 {
                    assert(v@.skip(pos as int).len() == 0);
                    assert(false);
                }
            }
        }
        return None;
    }
    if v[pos] == ']' {
        let empty_ops: Vec<OperationDescriptor> = Vec::new();
        proof {
            assert(empty_ops@.map_values(|o: OperationDescriptor| o@)
                =~= Seq::<OperationView>::empty());
            assert(v@.subrange(pos as int, pos as int) =~= Seq::<char>::empty());
            assert forall|t: Seq<OperationView>, rest: Seq<char>|
                #![trigger enc_ops(t).add(rest)]
                v@.skip(pos as int) == enc_ops(t) + rest && rest.len() > 0 && rest[0]
                    == ']' implies t == Seq::<OperationView>::empty() && pos == pos + enc_ops(
                t,
            ).len() by {
                if t.len() > 0 {
                    assert(enc_ops(t) == enc_op(t[0]) + enc_ops_rest(t.drop_first()));
                    assert(enc_op(t[0])[0] == "{\"name\":\""@[0]);
                    assert(enc_ops(t)[0] == enc_op(t[0])[0]);
                    assert(v@.skip(pos as int)[0] == (enc_ops(t) + rest)[0]);
                    assert(v@[pos as int] == v@.skip(pos as int)[0]);
                    assert(false);
                }
                assert(enc_ops(t) =~= Seq::<char>::empty());
            }
        }
        return Some((empty_ops, pos));
    }
    let r1 = parse_op(v, pos);
    let (op0, p0) = match r1 {
        Some(x) => x,
        None => {
            proof {
                assert forall|t: Seq<OperationView>, rest: Seq<char>|
                    #![trigger enc_ops(t).add(rest)]
                    !(v@.skip(pos as int) == enc_ops(t) + rest && rest.len() > 0 && rest[0]
                        == ']') by {
                    if v@.skip(pos as int) == enc_ops(t) + rest && rest.len() > 0 && rest[0]
                        == ']' {
                        if t.len() == 0 {
                            assert(enc_ops(t) =~= Seq::<char>::empty());
                            assert(v@.skip(pos as int) =~= rest);
                            assert(v@[pos as int] == v@.skip(pos as int)[0]);
                            assert(false);
                        } else {
                            assert(enc_ops(t) == enc_op(t[0]) + enc_ops_rest(t.drop_first()));
                            assert(v@.skip(pos as int) =~= enc_op(t[0]) + (enc_ops_rest(
                                t.drop_first(),
                            ) + rest));
                            assert(false);
                        }
                    }
                }
            }
            return None;
        },
    };
    let mut acc: Vec<OperationDescriptor> = Vec::new();
    acc.push(op0);
    let mut k: usize = p0;
    proof {
        assert(acc@.map_values(|o: OperationDescriptor| o@) =~= seq![op0@]);
        assert forall|t: Seq<OperationView>, rest: Seq<char>|
            #![trigger enc_ops(t).add(rest)]
            v@.skip(pos as int) == enc_ops(t) + rest && rest.len() > 0 && rest[0]
                == ']' implies 1 <= t.len() && seq![op0@] == t.take(1) && k == pos + enc_ops(
            t.take(1),
        ).len() by {
            if t.len() == 0 {
                assert(enc_ops(t) =~= Seq::<char>::empty());
                assert(v@.skip(pos as int) =~= rest);
                assert(v@[pos as int] == v@.skip(pos as int)[0]);
                assert(false);
            }
            assert(enc_ops(t) == enc_op(t[0]) + enc_ops_rest(t.drop_first()));
            assert(v@.skip(pos as int) =~= enc_op(t[0]) + (enc_ops_rest(t.drop_first()) + rest));
            assert(op0@ == t[0] && p0 == pos + enc_op(t[0]).len());
            assert(seq![op0@] =~= t.take(1));
            assert(t.take(1)[0] == t[0]);
            assert(t.take(1).drop_first() =~= Seq::<OperationView>::empty());
            assert(enc_ops_rest(Seq::<OperationView>::empty()) =~= Seq::<char>::empty());
            assert(enc_ops(t.take(1)) =~= enc_op(t[0]) + Seq::<char>::empty());
        }
    }
    loop
        invariant
            pos <= k <= v@.len(),
            v@.len() <= usize::MAX,
            acc@.len() >= 1,
            v@.subrange(pos as int, k as int) == enc_ops(
                acc@.map_values(|o: OperationDescriptor| o@),
            ),
            forall|t: Seq<OperationView>, rest: Seq<char>|
                #![trigger enc_ops(t).add(rest)]
                v@.skip(pos as int) == enc_ops(t) + rest && rest.len() > 0 && rest[0] == ']'
                    ==> acc@.len() <= t.len() && acc@.map_values(|o: OperationDescriptor| o@)
                    == t.take(acc@.len() as int) && k == pos + enc_ops(
                    t.take(acc@.len() as int),
                ).len(),
        decreases v@.len() - k,
    {
        let ghost prev = acc@.map_values(|o: OperationDescriptor| o@);
        if k == v.len() {
            proof {
                assert forall|t: Seq<OperationView>, rest: Seq<char>|
                    #![trigger enc_ops(t).add(rest)]
                    !(v@.skip(pos as int) == enc_ops(t) + rest && rest.len() > 0 && rest[0]
                        == ']') by {
                    if v@.skip(pos as int) == enc_ops(t) + rest && rest.len() > 0 && rest[0]
                        == ']' {
                        lemma_ops_inv_next(
                            v@,
                            pos as int,
                            k as int,
                            prev.len() as int,
                            t,
                            rest,
                        );
                        assert(false);
                    }
                }
            }
            return None;
        }
        let c = v[k];
        if c == ']' {
            proof {
                assert forall|t: Seq<OperationView>, rest: Seq<char>|
                    #![trigger enc_ops(t).add(rest)]
                    v@.skip(pos as int) == enc_ops(t) + rest && rest.len() > 0 && rest[0]
                        == ']' implies acc@.map_values(|o: OperationDescriptor| o@) == t && k
                    == pos + enc_ops(t).len() by {
                    let m = prev.len() as int;
                    lemma_ops_inv_next(v@, pos as int, k as int, m, t, rest);
                    if m < t.len() {
                        assert(false);
                    }
                    assert(t.take(m) =~= t);
                }
            }
            return Some((acc, k));
        } else if c == ',' {
            let r2 = parse_op(v, k + 1);
            match r2 {
                Some((opi, p2)) => {
                    proof {
                        reveal_strlit("{\"name\":\"");
                        reveal_strlit(",");
                        assert(v@.subrange(k as int + 1, p2 as int) == enc_op(opi@));
                        assert(enc_op(opi@).len() >= 9) by {
                            reveal_strlit("{\"name\":\"");
                            assert(enc_op(opi@) == "{\"name\":\""@ + esc_q(opi@.name)
                                + ",\"direction\":\""@ + dir_str(opi@.direction)
                                + "\",\"doctext\":\""@ + esc_q(opi@.doctext) + "}"@);
                        }
                    }
                    acc.push(opi);
                    let ghost newv = acc@.map_values(|o: OperationDescriptor| o@);
                    proof {
                        reveal_strlit(",");
                        assert(newv =~= prev.push(opi@));
                        lemma_enc_ops_snoc(prev, opi@);
                        assert(","@ =~= seq![',']);
                        assert(v@.subrange(pos as int, p2 as int) =~= v@.subrange(
                            pos as int,
                            k as int,
                        ) + seq![','] + v@.subrange(k as int + 1, p2 as int));
                        assert(v@.subrange(pos as int, p2 as int) == enc_ops(prev) + ","@
                            + enc_op(opi@));
                        assert forall|t: Seq<OperationView>, rest: Seq<char>|
                            #![trigger enc_ops(t).add(rest)]
                            v@.skip(pos as int) == enc_ops(t) + rest && rest.len() > 0 && rest[0]
                                == ']' implies newv.len() <= t.len() && newv == t.take(
                            newv.len() as int,
                        ) && p2 == pos + enc_ops(t.take(newv.len() as int)).len() by {
                            let m = prev.len() as int;
                            lemma_ops_inv_next(v@, pos as int, k as int, m, t, rest);
                            if m == t.len() {
                                assert(false);
                            }
                            assert(v@.skip(k as int + 1) == enc_op(t[m]).add(enc_ops_rest(
                                t.skip(m).drop_first(),
                            ) + rest));
                            assert(opi@ == t[m]);
                            assert(p2 == k + 1 + enc_op(t[m]).len());
                            assert(newv =~= t.take(m + 1));
                            lemma_enc_ops_snoc(t.take(m), t[m]);
                            assert(t.take(m).push(t[m]) =~= t.take(m + 1));
                            assert(enc_ops(t.take(m + 1)).len() == enc_ops(t.take(m)).len() + 1
                                + enc_op(t[m]).len());
                        }
                    }
                    k = p2;
                },
                None => {
                    proof {
                        assert forall|t: Seq<OperationView>, rest: Seq<char>|
                            #![trigger enc_ops(t).add(rest)]
                            !(v@.skip(pos as int) == enc_ops(t) + rest && rest.len() > 0
                                && rest[0] == ']') by {
                            if v@.skip(pos as int) == enc_ops(t) + rest && rest.len() > 0
                                && rest[0] == ']' {
                                let m = prev.len() as int;
                                lemma_ops_inv_next(v@, pos as int, k as int, m, t, rest);
                                if m == t.len() {
                                    assert(false);
                                }
                                assert(v@.skip(k as int + 1) == enc_op(t[m]).add(enc_ops_rest(
                                    t.skip(m).drop_first(),
                                ) + rest));
                                assert(false);
                            }
                        }
                    }
                    return None;
                },
            }
        } else {
            proof {
                assert forall|t: Seq<OperationView>, rest: Seq<char>|
                    #![trigger enc_ops(t).add(rest)]
                    !(v@.skip(pos as int) == enc_ops(t) + rest && rest.len() > 0 && rest[0]
                        == ']') by {
                    if v@.skip(pos as int) == enc_ops(t) + rest && rest.len() > 0 && rest[0]
                        == ']' {
                        let m = prev.len() as int;
                        lemma_ops_inv_next(v@, pos as int, k as int, m, t, rest);
                        assert(false);
                    }
                }
            }
            return None;
        }
    }
}

/// The stages of a descriptor front's textual form, peeled off left to
/// right.
proof fn lemma_front_decomposition(
    v: Seq<char>,
    id: Seq<char>,
    name: Seq<char>,
    version: Seq<char>,
    rest: Seq<char>,
)
    requires
        v == enc_front(id, name, version) + rest,
    ensures
        enc_front(id, name, version).len() == 28 + esc_q(id).len() + esc_q(name).len() + esc_q(
            version,
        ).len(),
        v.len() == enc_front(id, name, version).len() + rest.len(),
        v.subrange(0, 7) == "{\"id\":\""@,
        v.skip(7) == esc_q(id).add(
            ",\"name\":\""@ + (esc_q(name) + (",\"version\":\""@ + (esc_q(version) + rest))),
        ),
        v.subrange(7 + esc_q(id).len() as int, 16 + esc_q(id).len() as int) == ",\"name\":\""@,
        v.skip(16 + esc_q(id).len() as int) == esc_q(name).add(
            ",\"version\":\""@ + (esc_q(version) + rest),
        ),
        v.subrange(
            16 + esc_q(id).len() as int + esc_q(name).len() as int,
            28 + esc_q(id).len() as int + esc_q(name).len() as int,
        ) == ",\"version\":\""@,
        v.skip(28 + esc_q(id).len() as int + esc_q(name).len() as int) == esc_q(version).add(rest),
        v.skip(
            28 + esc_q(id).len() as int + esc_q(name).len() as int + esc_q(version).len() as int,
        ) == rest,
{
    reveal(enc_front);
    reveal_strlit("{\"id\":\"");
    reveal_strlit(",\"name\":\"");
    reveal_strlit(",\"version\":\"");
    let l1 = "{\"id\":\""@;
    let l2 = ",\"name\":\""@;
    let l3 = ",\"version\":\""@;
    let e1 = esc_q(id);
    let e2 = esc_q(name);
    let e3 = esc_q(version);
    assert(v.skip(0) =~= v);
    assert(v.skip(0) =~= l1 + (e1 + (l2 + (e2 + (l3 + (e3 + rest))))));
    lemma_skip_concat(v, 0, l1, e1 + (l2 + (e2 + (l3 + (e3 + rest)))));
    lemma_skip_prefix(v, 0, l1, e1 + (l2 + (e2 + (l3 + (e3 + rest)))));
    let p1 = 7int;
    lemma_skip_concat(v, p1, e1, l2 + (e2 + (l3 + (e3 + rest))));
    let p2 = p1 + e1.len();
    lemma_skip_concat(v, p2, l2, e2 + (l3 + (e3 + rest)));
    lemma_skip_prefix(v, p2, l2, e2 + (l3 + (e3 + rest)));
    let p3 = p2 + 9;
    lemma_skip_concat(v, p3, e2, l3 + (e3 + rest));
    let p4 = p3 + e2.len();
    lemma_skip_concat(v, p4, l3, e3 + rest);
    lemma_skip_prefix(v, p4, l3, e3 + rest);
    let p5 = p4 + 12;
    lemma_skip_concat(v, p5, e3, rest);
}

/// Scans a descriptor's first three fields, from the opening brace through
/// the version string.
fn parse_front(v: &Vec<char>) -> (r: Option<(String, String, String, usize)>)
    ensures
        r matches Some(h) ==> h.3 <= v@.len() && v@.subrange(0, h.3 as int) == enc_front(
            h.0@,
            h.1@,
            h.2@,
        ),
        forall|id: Seq<char>, name: Seq<char>, version: Seq<char>, rest: Seq<char>|
            #![trigger enc_front(id, name, version).add(rest)]
            v@ == enc_front(id, name, version) + rest ==> (r matches Some(h) && h.0@ == id && h.1@
                == name && h.2@ == version && h.3 == enc_front(id, name, version).len()),
{
    proof {
        reveal_strlit("{\"id\":\"");
        reveal_strlit(",\"name\":\"");
        reveal_strlit(",\"version\":\"");
    }
    let r1 = parse_lit(v, 0, "{\"id\":\"");
    let p1 = match r1 {
        Some(p) => p,
        None => {
            proof {
                assert forall|id: Seq<char>, name: Seq<char>, version: Seq<char>, rest: Seq<char>|
                    #![trigger enc_front(id, name, version).add(rest)]
                    !(v@ == enc_front(id, name, version) + rest) by {
                    if v@ == enc_front(id, name, version) + rest {
                        lemma_front_decomposition(v@, id, name, version, rest);
                        assert(false);
                    }
                }
            }
            return None;
        },
    };
    let r2 = parse_string(v, p1);
    let (id_s, p2) = match r2 {
        Some(x) => x,
        None => {
            proof {
                assert forall|id: Seq<char>, name: Seq<char>, version: Seq<char>, rest: Seq<char>|
                    #![trigger enc_front(id, name, version).add(rest)]
                    !(v@ == enc_front(id, name, version) + rest) by {
                    if v@ == enc_front(id, name, version) + rest {
                        lemma_front_decomposition(v@, id, name, version, rest);
                        assert(false);
                    }
                }
            }
            return None;
        },
    };
    let r3 = parse_lit(v, p2, ",\"name\":\"");
    let p3 = match r3 {
        Some(p) => p,
        None => {
            proof {
                assert forall|id: Seq<char>, name: Seq<char>, version: Seq<char>, rest: Seq<char>|
                    #![trigger enc_front(id, name, version).add(rest)]
                    !(v@ == enc_front(id, name, version) + rest) by {
                    if v@ == enc_front(id, name, version) + rest {
                        lemma_front_decomposition(v@, id, name, version, rest);
                        assert(id_s@ == id && p2 == p1 + esc_q(id).len());
                        assert(false);
                    }
                }
            }
            return None;
        },
    };
    let r4 = parse_string(v, p3);
    let (name_s, p4) = match r4 {
        Some(x) => x,
        None => {
            proof {
                assert forall|id: Seq<char>, name: Seq<char>, version: Seq<char>, rest: Seq<char>|
                    #![trigger enc_front(id, name, version).add(rest)]
                    !(v@ == enc_front(id, name, version) + rest) by {
                    if v@ == enc_front(id, name, version) + rest {
                        lemma_front_decomposition(v@, id, name, version, rest);
                        assert(id_s@ == id && p2 == p1 + esc_q(id).len());
                        assert(false);
                    }
                }
            }
            return None;
        },
    };
    let r5 = parse_lit(v, p4, ",\"version\":\"");
    let p5 = match r5 {
        Some(p) => p,
        None => {
            proof {
                assert forall|id: Seq<char>, name: Seq<char>, version: Seq<char>, rest: Seq<char>|
                    #![trigger enc_front(id, name, version).add(rest)]
                    !(v@ == enc_front(id, name, version) + rest) by {
                    if v@ == enc_front(id, name, version) + rest {
                        lemma_front_decomposition(v@, id, name, version, rest);
                        assert(id_s@ == id && p2 == p1 + esc_q(id).len());
                        assert(name_s@ == name && p4 == p3 + esc_q(name).len());
                        assert(false);
                    }
                }
            }
            return None;
        },
    };
    let r6 = parse_string(v, p5);
    let (version_s, p6) = match r6 {
        Some(x) => x,
        None => {
            proof {
                assert forall|id: Seq<char>, name: Seq<char>, version: Seq<char>, rest: Seq<char>|
                    #![trigger enc_front(id, name, version).add(rest)]
                    !(v@ == enc_front(id, name, version) + rest) by {
                    if v@ == enc_front(id, name, version) + rest {
                        lemma_front_decomposition(v@, id, name, version, rest);
                        assert(id_s@ == id && p2 == p1 + esc_q(id).len());
                        assert(name_s@ == name && p4 == p3 + esc_q(name).len());
                        assert(false);
                    }
                }
            }
            return None;
        },
    };
    proof {
        reveal(enc_front);
        assert(v@.subrange(0, p2 as int) =~= v@.subrange(0, p1 as int) + v@.subrange(
            p1 as int,
            p2 as int,
        ));
        assert(v@.subrange(0, p3 as int) =~= v@.subrange(0, p2 as int) + v@.subrange(
            p2 as int,
            p3 as int,
        ));
        assert(v@.subrange(0, p4 as int) =~= v@.subrange(0, p3 as int) + v@.subrange(
            p3 as int,
            p4 as int,
        ));
        assert(v@.subrange(0, p5 as int) =~= v@.subrange(0, p4 as int) + v@.subrange(
            p4 as int,
            p5 as int,
        ));
        assert(v@.subrange(0, p6 as int) =~= v@.subrange(0, p5 as int) + v@.subrange(
            p5 as int,
            p6 as int,
        ));
        assert(v@.subrange(0, p6 as int) == enc_front(id_s@, name_s@, version_s@));
        assert forall|id: Seq<char>, name: Seq<char>, version: Seq<char>, rest: Seq<char>|
            #![trigger enc_front(id, name, version).add(rest)]
            v@ == enc_front(id, name, version) + rest implies id_s@ == id && name_s@ == name
            && version_s@ == version && p6 == enc_front(id, name, version).len() by {
            lemma_front_decomposition(v@, id, name, version, rest);
            assert(id_s@ == id && p2 == p1 + esc_q(id).len());
            assert(name_s@ == name && p4 == p3 + esc_q(name).len());
            assert(version_s@ == version && p6 == p5 + esc_q(version).len());
        }
    }
    Some((id_s, name_s, version_s, p6))
}

/// The stages of a descriptor back's textual form, peeled off left to
/// right.
proof fn lemma_back_decomposition(
    v: Seq<char>,
    pos: int,
    revision: u32,
    ld: Seq<char>,
    rest: Seq<char>,
)
    requires
        0 <= pos <= v.len(),
        v.skip(pos) == enc_back(revision, ld) + rest,
    ensures
        enc_back(revision, ld).len() == 58 + dec_digits(revision as int).len() + esc_q(ld).len(),
        pos + enc_back(revision, ld).len() + rest.len() == v.len(),
        v.subrange(pos, pos + 12) == ",\"revision\":"@,
        v.skip(pos + 12) == dec_digits(revision as int).add(
            ",\"long_description\":\""@ + (esc_q(ld) + (",\"supported_operations\":["@
                + rest)),
        ),
        v.subrange(
            pos + 12 + dec_digits(revision as int).len() as int,
            pos + 33 + dec_digits(revision as int).len() as int,
        ) == ",\"long_description\":\""@,
        v.skip(pos + 33 + dec_digits(revision as int).len() as int) == esc_q(ld).add(
            ",\"supported_operations\":["@ + rest,
        ),
        v.subrange(
            pos + 33 + dec_digits(revision as int).len() as int + esc_q(ld).len() as int,
            pos + 58 + dec_digits(revision as int).len() as int + esc_q(ld).len() as int,
        ) == ",\"supported_operations\":["@,
        v.skip(pos + 58 + dec_digits(revision as int).len() as int + esc_q(ld).len() as int)
            == rest,
{
    reveal(enc_back);
    reveal_strlit(",\"revision\":");
    reveal_strlit(",\"long_description\":\"");
    reveal_strlit(",\"supported_operations\":[");
    let l4 = ",\"revision\":"@;
    let l5 = ",\"long_description\":\""@;
    let l6 = ",\"supported_operations\":["@;
    let e4 = dec_digits(revision as int);
    let e5 = esc_q(ld);
    assert(v.skip(pos) =~= l4 + (e4 + (l5 + (e5 + (l6 + rest)))));
    lemma_skip_concat(v, pos, l4, e4 + (l5 + (e5 + (l6 + rest))));
    lemma_skip_prefix(v, pos, l4, e4 + (l5 + (e5 + (l6 + rest))));
    let p1 = pos + 12;
    lemma_skip_concat(v, p1, e4, l5 + (e5 + (l6 + rest)));
    let p2 = p1 + e4.len();
    lemma_skip_concat(v, p2, l5, e5 + (l6 + rest));
    lemma_skip_prefix(v, p2, l5, e5 + (l6 + rest));
    let p3 = p2 + 21;
    lemma_skip_concat(v, p3, e5, l6 + rest);
    let p4 = p3 + e5.len();
    lemma_skip_concat(v, p4, l6, rest);
    lemma_skip_prefix(v, p4, l6, rest);
}

/// Scans a descriptor's revision and long description, up to and including
/// the bracket that opens its operation list.
fn parse_back(v: &Vec<char>, pos: usize) -> (r: Option<(u32, String, usize)>)
    requires
        pos <= v@.len(),
    ensures
        r matches Some(h) ==> pos <= h.2 <= v@.len() && v@.subrange(pos as int, h.2 as int)
            == enc_back(h.0, h.1@),
        forall|revision: u32, ld: Seq<char>, rest: Seq<char>|
            #![trigger enc_back(revision, ld).add(rest)]
            v@.skip(pos as int) == enc_back(revision, ld) + rest ==> (r matches Some(h) && h.0
                == revision && h.1@ == ld && h.2 == pos + enc_back(revision, ld).len()),
{
    proof {
        reveal_strlit(",\"revision\":");
        reveal_strlit(",\"long_description\":\"");
        reveal_strlit(",\"supported_operations\":[");
    }
    let r7 = parse_lit(v, pos, ",\"revision\":");
    let p7 = match r7 {
        Some(p) => p,
        None => {
            proof {
                assert forall|revision: u32, ld: Seq<char>, rest: Seq<char>|
                    #![trigger enc_back(revision, ld).add(rest)]
                    !(v@.skip(pos as int) == enc_back(revision, ld) + rest) by {
                    if v@.skip(pos as int) == enc_back(revision, ld) + rest {
                        lemma_back_decomposition(v@, pos as int, revision, ld, rest);
                        assert(false);
                    }
                }
            }
            return None;
        },
    };
    let r8 = parse_u32(v, p7);
    let (revision_n, p8) = match r8 {
        Some(x) => x,
        None => {
            proof {
                assert forall|revision: u32, ld: Seq<char>, rest: Seq<char>|
                    #![trigger enc_back(revision, ld).add(rest)]
                    !(v@.skip(pos as int) == enc_back(revision, ld) + rest) by {
                    if v@.skip(pos as int) == enc_back(revision, ld) + rest {
                        lemma_back_decomposition(v@, pos as int, revision, ld, rest);
                        assert(!is_digit(
                            (",\"long_description\":\""@ + (esc_q(ld) + (
                            ",\"supported_operations\":["@ + rest)))[0],
                        ));
                        assert(false);
                    }
                }
            }
            return None;
        },
    };
    let r9 = parse_lit(v, p8, ",\"long_description\":\"");
    let p9 = match r9 {
        Some(p) => p,
        None => {
            proof {
                assert forall|revision: u32, ld: Seq<char>, rest: Seq<char>|
                    #![trigger enc_back(revision, ld).add(rest)]
                    !(v@.skip(pos as int) == enc_back(revision, ld) + rest) by {
                    if v@.skip(pos as int) == enc_back(revision, ld) + rest {
                        lemma_back_decomposition(v@, pos as int, revision, ld, rest);
                        assert(!is_digit(
                            (",\"long_description\":\""@ + (esc_q(ld) + (
                            ",\"supported_operations\":["@ + rest)))[0],
                        ));
                        assert(revision_n == revision && p8 == p7 + dec_digits(
                            revision as int,
                        ).len());
                        assert(false);
                    }
                }
            }
            return None;
        },
    };
    let r10 = parse_string(v, p9);
    let (ld_s, p10) = match r10 {
        Some(x) => x,
        None => {
            proof {
                assert forall|revision: u32, ld: Seq<char>, rest: Seq<char>|
                    #![trigger enc_back(revision, ld).add(rest)]
                    !(v@.skip(pos as int) == enc_back(revision, ld) + rest) by {
                    if v@.skip(pos as int) == enc_back(revision, ld) + rest {
                        lemma_back_decomposition(v@, pos as int, revision, ld, rest);
                        assert(!is_digit(
                            (",\"long_description\":\""@ + (esc_q(ld) + (
                            ",\"supported_operations\":["@ + rest)))[0],
                        ));
                        assert(revision_n == revision && p8 == p7 + dec_digits(
                            revision as int,
                        ).len());
                        assert(false);
                    }
                }
            }
            return None;
        },
    };
    let r11 = parse_lit(v, p10, ",\"supported_operations\":[");
    let p11 = match r11 {
        Some(p) => p,
        None => {
            proof {
                assert forall|revision: u32, ld: Seq<char>, rest: Seq<char>|
                    #![trigger enc_back(revision, ld).add(rest)]
                    !(v@.skip(pos as int) == enc_back(revision, ld) + rest) by {
                    if v@.skip(pos as int) == enc_back(revision, ld) + rest {
                        lemma_back_decomposition(v@, pos as int, revision, ld, rest);
                        assert(!is_digit(
                            (",\"long_description\":\""@ + (esc_q(ld) + (
                            ",\"supported_operations\":["@ + rest)))[0],
                        ));
                        assert(revision_n == revision && p8 == p7 + dec_digits(
                            revision as int,
                        ).len());
                        assert(ld_s@ == ld && p10 == p9 + esc_q(ld).len());
                        assert(false);
                    }
                }
            }
            return None;
        },
    };
    proof {
        reveal(enc_back);
        assert(v@.subrange(pos as int, p8 as int) =~= v@.subrange(pos as int, p7 as int)
            + v@.subrange(p7 as int, p8 as int));
        assert(v@.subrange(pos as int, p9 as int) =~= v@.subrange(pos as int, p8 as int)
            + v@.subrange(p8 as int, p9 as int));
        assert(v@.subrange(pos as int, p10 as int) =~= v@.subrange(pos as int, p9 as int)
            + v@.subrange(p9 as int, p10 as int));
        assert(v@.subrange(pos as int, p11 as int) =~= v@.subrange(pos as int, p10 as int)
            + v@.subrange(p10 as int, p11 as int));
        assert(v@.subrange(pos as int, p11 as int) == enc_back(revision_n, ld_s@));
        assert forall|revision: u32, ld: Seq<char>, rest: Seq<char>|
            #![trigger enc_back(revision, ld).add(rest)]
            v@.skip(pos as int) == enc_back(revision, ld) + rest implies revision_n == revision
            && ld_s@ == ld && p11 == pos + enc_back(revision, ld).len() by {
            lemma_back_decomposition(v@, pos as int, revision, ld, rest);
            assert(!is_digit(
                (",\"long_description\":\""@ + (esc_q(ld) + (",\"supported_operations\":["@
                    + rest)))[0],
            ));
            assert(revision_n == revision && p8 == p7 + dec_digits(revision as int).len());
            assert(ld_s@ == ld && p10 == p9 + esc_q(ld).len());
        }
    }
    Some((revision_n, ld_s, p11))
}

/// Decodes the textual form of a capability descriptor. The decoder accepts
/// exactly the strings [`encode_descriptor`] produces: whatever it accepts
/// re-encodes to the very input, and the encoding of every descriptor
/// decodes back to a descriptor with the same value, so nothing is lost on
/// the round trip.
#[verifier::rlimit(100)]
pub fn decode_descriptor(s: &str) -> (r: Option<CapabilityDescriptor>)
    ensures
        r matches Some(d) ==> s@ == enc_descriptor(d@),
        forall|dv: DescriptorView| s@ == enc_descriptor(dv) ==> (r matches Some(d) && d@ == dv),
{
    let v = str_chars(s);
    proof {
        reveal_strlit("]}");
    }
    let rf = parse_front(&v);
    let (id, name, version, p6) = match rf {
        Some(h) => h,
        None => {
            proof {
                assert forall|dv: DescriptorView| !(s@ == enc_descriptor(dv)) by {
                    if s@ == enc_descriptor(dv) {
                        assert(v@ =~= enc_front(dv.id, dv.name, dv.version).add(
                            enc_back(dv.revision, dv.long_description) + (enc_ops(
                                dv.supported_operations,
                            ) + "]}"@),
                        ));
                        assert(false);
                    }
                }
            }
            return None;
        },
    };
    let rb = parse_back(&v, p6);
    let (revision, long_description, p11) = match rb {
        Some(h) => h,
        None => {
            proof {
                assert forall|dv: DescriptorView| !(s@ == enc_descriptor(dv)) by {
                    if s@ == enc_descriptor(dv) {
                        let fr = enc_front(dv.id, dv.name, dv.version);
                        let bk = enc_back(dv.revision, dv.long_description);
                        assert(v@ =~= fr.add(bk + (enc_ops(dv.supported_operations) + "]}"@)));
                        assert(p6 == fr.len());
                        assert(v@.skip(0) =~= v@);
                        lemma_skip_concat(v@, 0, fr, bk + (enc_ops(dv.supported_operations)
                            + "]}"@));
                        assert(v@.skip(p6 as int) == bk.add(enc_ops(dv.supported_operations)
                            + "]}"@));
                        assert(false);
                    }
                }
            }
            return None;
        },
    };
    let ro = parse_ops(&v, p11);
    let (supported_operations, p12) = match ro {
        Some(x) => x,
        None => {
            proof {
                assert forall|dv: DescriptorView| !(s@ == enc_descriptor(dv)) by {
                    if s@ == enc_descriptor(dv) {
                        let fr = enc_front(dv.id, dv.name, dv.version);
                        let bk = enc_back(dv.revision, dv.long_description);
                        assert(v@ =~= fr.add(bk + (enc_ops(dv.supported_operations) + "]}"@)));
                        assert(p6 == fr.len());
                        assert(v@.skip(0) =~= v@);
                        lemma_skip_concat(v@, 0, fr, bk + (enc_ops(dv.supported_operations)
                            + "]}"@));
                        assert(v@.skip(p6 as int) == bk.add(enc_ops(dv.supported_operations)
                            + "]}"@));
                        assert(p11 == p6 + bk.len());
                        lemma_skip_concat(v@, p6 as int, bk, enc_ops(dv.supported_operations)
                            + "]}"@);
                        assert(v@.skip(p11 as int) == enc_ops(dv.supported_operations).add(
                            "]}"@,
                        ));
                        assert(("]}"@)[0] == ']');
                        assert(false);
                    }
                }
            }
            return None;
        },
    };
    let rl = parse_lit(&v, p12, "]}");
    let p13 = match rl {
        Some(p) => p,
        None => {
            proof {
                assert forall|dv: DescriptorView| !(s@ == enc_descriptor(dv)) by {
                    if s@ == enc_descriptor(dv) {
                        let fr = enc_front(dv.id, dv.name, dv.version);
                        let bk = enc_back(dv.revision, dv.long_description);
                        assert(v@ =~= fr.add(bk + (enc_ops(dv.supported_operations) + "]}"@)));
                        assert(p6 == fr.len());
                        assert(v@.skip(0) =~= v@);
                        lemma_skip_concat(v@, 0, fr, bk + (enc_ops(dv.supported_operations)
                            + "]}"@));
                        assert(v@.skip(p6 as int) == bk.add(enc_ops(dv.supported_operations)
                            + "]}"@));
                        assert(p11 == p6 + bk.len());
                        lemma_skip_concat(v@, p6 as int, bk, enc_ops(dv.supported_operations)
                            + "]}"@);
                        assert(v@.skip(p11 as int) == enc_ops(dv.supported_operations).add(
                            "]}"@,
                        ));
                        assert(("]}"@)[0] == ']');
                        assert(p12 == p11 + enc_ops(dv.supported_operations).len());
                        lemma_skip_concat(
                            v@,
                            p11 as int,
                            enc_ops(dv.supported_operations),
                            "]}"@,
                        );
                        assert(v@.skip(p12 as int) =~= "]}"@ + Seq::<char>::empty());
                        lemma_skip_prefix(v@, p12 as int, "]}"@, Seq::<char>::empty());
                        assert(false);
                    }
                }
            }
            return None;
        },
    };
    if p13 != v.len() {
        proof {
            assert forall|dv: DescriptorView| !(s@ == enc_descriptor(dv)) by {
                if s@ == enc_descriptor(dv) {
                    let fr = enc_front(dv.id, dv.name, dv.version);
                    let bk = enc_back(dv.revision, dv.long_description);
                    assert(v@ =~= fr.add(bk + (enc_ops(dv.supported_operations) + "]}"@)));
                    assert(p6 == fr.len());
                    assert(v@.skip(0) =~= v@);
                    lemma_skip_concat(v@, 0, fr, bk + (enc_ops(dv.supported_operations) + "]}"@));
                    assert(v@.skip(p6 as int) == bk.add(enc_ops(dv.supported_operations)
                        + "]}"@));
                    assert(p11 == p6 + bk.len());
                    lemma_skip_concat(v@, p6 as int, bk, enc_ops(dv.supported_operations)
                        + "]}"@);
                    assert(v@.skip(p11 as int) == enc_ops(dv.supported_operations).add("]}"@));
                    assert(("]}"@)[0] == ']');
                    assert(p12 == p11 + enc_ops(dv.supported_operations).len());
                    assert(v@.len() == p12 + 2);
                    assert(false);
                }
            }
        }
        return None;
    }
    let d = CapabilityDescriptor {
        id,
        name,
        version,
        revision,
        long_description,
        supported_operations,
    };
    proof {
        assert(v@.subrange(0, p11 as int) =~= v@.subrange(0, p6 as int) + v@.subrange(
            p6 as int,
            p11 as int,
        ));
        assert(v@.subrange(0, p12 as int) =~= v@.subrange(0, p11 as int) + v@.subrange(
            p11 as int,
            p12 as int,
        ));
        assert(v@.subrange(0, p13 as int) =~= v@.subrange(0, p12 as int) + v@.subrange(
            p12 as int,
            p13 as int,
        ));
        assert(v@.subrange(0, p13 as int) =~= v@);
        assert(s@ == enc_descriptor(d@));
        assert forall|dv: DescriptorView| s@ == enc_descriptor(dv) implies d@ == dv by {
            let fr = enc_front(dv.id, dv.name, dv.version);
            let bk = enc_back(dv.revision, dv.long_description);
            assert(v@ =~= fr.add(bk + (enc_ops(dv.supported_operations) + "]}"@)));
            assert(p6 == fr.len());
            assert(id@ == dv.id && name@ == dv.name && version@ == dv.version);
            assert(v@.skip(0) =~= v@);
            lemma_skip_concat(v@, 0, fr, bk + (enc_ops(dv.supported_operations) + "]}"@));
            assert(v@.skip(p6 as int) == bk.add(enc_ops(dv.supported_operations) + "]}"@));
            assert(revision == dv.revision && long_description@ == dv.long_description);
            assert(p11 == p6 + bk.len());
            lemma_skip_concat(v@, p6 as int, bk, enc_ops(dv.supported_operations) + "]}"@);
            assert(v@.skip(p11 as int) == enc_ops(dv.supported_operations).add("]}"@));
            assert(("]}"@)[0] == ']');
            assert(supported_operations@.map_values(|o: OperationDescriptor| o@)
                == dv.supported_operations);
        }
    }
    Some(d)
}

proof fn lemma_enc_ops_rest_snoc(ops: Seq<OperationView>, o: OperationView)
    ensures
        enc_ops_rest(ops.push(o)) == enc_ops_rest(ops) + (","@ + enc_op(o)),
    decreases ops.len(),
{
    if ops.len() == 0 {
        assert(ops.push(o)[0] == o);
        assert(ops.push(o).drop_first() =~= Seq::<OperationView>::empty());
        assert(enc_ops_rest(Seq::<OperationView>::empty()) =~= Seq::<char>::empty());
        assert(enc_ops_rest(ops.push(o)) =~= ","@ + enc_op(o) + Seq::<char>::empty());
        assert(enc_ops_rest(ops) + (","@ + enc_op(o)) =~= ","@ + enc_op(o)
            + Seq::<char>::empty());
    } else {
        lemma_enc_ops_rest_snoc(ops.drop_first(), o);
        assert(ops.push(o).drop_first() =~= ops.drop_first().push(o));
        assert(ops.push(o)[0] == ops[0]);
        assert(","@ + enc_op(ops[0]) + (enc_ops_rest(ops.drop_first()) + (","@ + enc_op(o))) =~= (
        ","@ + enc_op(ops[0]) + enc_ops_rest(ops.drop_first())) + (","@ + enc_op(o)));
    }
}

} // verus!
