//! A human-readable rendering of values, as a command-line client shows
//! replies.

use vstd::prelude::*;
use vstd::utf8::{encode_utf8, valid_utf8, valid_utf8_concat, encode_utf8_valid_utf8};

use crate::decimal::{decimal, lemma_decimal_digits, push_decimal, push_signed_decimal, signed_decimal};
use crate::serialize::push_bytes;
use crate::text::{is_ascii_bytes, lemma_ascii_valid_utf8};
use crate::value::{SpecValue, Value};

verus! {

/// The ASCII byte of the lowercase hex digit for `d`, which is below 16.
pub open spec fn hex_digit(d: nat) -> u8 {
    if d < 10 {
        (48 + d) as u8
    } else {
        (87 + d) as u8
    }
}

/// A space, then the two lowercase hex digits of `b`.
pub open spec fn hex_byte(b: u8) -> Seq<u8> {
    seq![32u8, hex_digit(b as nat / 16), hex_digit(b as nat % 16)]
}

/// `hex_byte` of each byte of `b`, one after another.
pub open spec fn hex_list(b: Seq<u8>) -> Seq<u8>
    decreases b.len(),
{
    if b.len() == 0 {
        Seq::empty()
    } else {
        hex_list(b.drop_last()) + hex_byte(b.last())
    }
}

/// Up to sixteen bytes in hex, separated by spaces, then ` ...` where
/// bytes were left out.
pub open spec fn buffer_text(b: Seq<u8>) -> Seq<u8> {
    let shown = if b.len() > 16 {
        b.take(16)
    } else {
        b
    };
    // ` ...`
    let more = if b.len() > 16 {
        seq![32u8, 46u8, 46u8, 46u8]
    } else {
        Seq::empty()
    };
    (hex_list(shown) + more).drop_first()
}

/// `n` spaces.
pub open spec fn spaces(n: nat) -> Seq<u8> {
    Seq::new(n, |i: int| 32u8)
}

/// The label of entry `index`: its decimal text, right-aligned in `width`
/// columns, then `) `.
pub open spec fn index_label(index: nat, width: nat) -> Seq<u8> {
    let digits = decimal(index);
    let pad = if width > digits.len() {
        (width - digits.len()) as nat
    } else {
        0
    };
    spaces(pad) + digits + seq![41u8, 32u8]
}

/// The rendering of `v`. Arrays list their entries one per line, nested
/// ones indented past the labels of their parents; `indent` is how far the
/// entries of an array `v` start from the left edge.
pub open spec fn pretty(v: SpecValue, indent: nat) -> Seq<u8>
    decreases v, 0int, 0int,
{
    match v {
        SpecValue::Null => encode_utf8("(Null)"@),
        SpecValue::NullArray => encode_utf8("(Null Array)"@),
        SpecValue::String(text) => encode_utf8(text),
        SpecValue::Error(text) => encode_utf8("(Error) "@) + encode_utf8(text),
        SpecValue::Integer(n) => encode_utf8("(Integer) "@) + signed_decimal(n),
        SpecValue::Bulk(text) => seq![34u8] + encode_utf8(text) + seq![34u8],
        SpecValue::BufBulk(b) => if b.len() == 0 {
            encode_utf8("(Empty Buffer)"@)
        } else {
            encode_utf8("(Buffer) "@) + buffer_text(b)
        },
        SpecValue::Array(items) => if items.len() == 0 {
            encode_utf8("(Empty Array)"@)
        } else {
            let width = if indent > decimal(items.len()).len() {
                indent
            } else {
                decimal(items.len()).len()
            };
            entries(items, indent, width, items.len())
        },
    }
}

/// The first `n` entries of an array: label, rendering, and a line break
/// between entries. The first label is not indented, as the array's own
/// label already stands before it.
pub open spec fn entries(items: Seq<SpecValue>, indent: nat, width: nat, n: nat) -> Seq<u8>
    decreases items, 1int, n,
{
    if n == 0 || n > items.len() {
        Seq::empty()
    } else {
        let i = (n - 1) as nat;
        let label = if i == 0 {
            index_label(1, (width - indent) as nat)
        } else {
            index_label(n, width)
        };
        let newline = if n < items.len() {
            seq![10u8]
        } else {
            Seq::empty()
        };
        entries(items, indent, width, i) + label + pretty(items[i as int], width + 3) + newline
    }
}

/// How deeply arrays nest in `v`: zero for anything but an array.
pub open spec fn nesting(v: SpecValue) -> nat
    decreases v, 0int, 0int,
{
    match v {
        SpecValue::Array(items) => 1 + nesting_items(items, items.len()),
        _ => 0,
    }
}

/// The deepest nesting among the first `n` of `items`.
pub open spec fn nesting_items(items: Seq<SpecValue>, n: nat) -> nat
    decreases items, 1int, n,
{
    if n == 0 || n > items.len() {
        0
    } else {
        let a = nesting_items(items, (n - 1) as nat);
        let b = nesting(items[n - 1]);
        if a > b {
            a
        } else {
            b
        }
    }
}

/// The indentation of `v`'s nested arrays stays within `usize`.
pub open spec fn fits(v: SpecValue, indent: nat) -> bool {
    (if indent > 20 {
        indent
    } else {
        20
    }) + 3 * nesting(v) + 23 <= usize::MAX
}

/// Each of the first `n` items nests no deeper than `nesting_items` says.
proof fn lemma_nesting_items(items: Seq<SpecValue>, n: nat, i: int)
    requires
        0 <= i < n <= items.len(),
    ensures
        nesting(items[i]) <= nesting_items(items, n),
    decreases n,
{
    if i < n - 1 {
        lemma_nesting_items(items, (n - 1) as nat, i);
    }
}

/// Ten to the power `k`.
pub open spec fn pow10(k: nat) -> nat
    decreases k,
{
    if k == 0 {
        1
    } else {
        10 * pow10((k - 1) as nat)
    }
}

/// A number below `10^k` has at most `k` digits.
proof fn lemma_decimal_len(n: nat, k: nat)
    requires
        k >= 1,
        n < pow10(k),
    ensures
        decimal(n).len() <= k,
    decreases k,
{
    if n >= 10 {
        assert(k >= 2) by {
            if k == 1 {
                assert(pow10(1) == 10) by {
                    reveal_with_fuel(pow10, 2);
                }
            }
        }
        assert(n / 10 < pow10((k - 1) as nat)) by (nonlinear_arith)
            requires
                n < 10 * pow10((k - 1) as nat),
        ;
        lemma_decimal_len(n / 10, (k - 1) as nat);
    }
}

/// Appends the UTF-8 bytes of `s`.
fn push_str(out: &mut Vec<u8>, s: &str)
    ensures
        final(out)@ == old(out)@ + encode_utf8(s@),
{
    push_bytes(out, s.as_bytes());
}

/// Appends a space and the two lowercase hex digits of `u`.
fn push_hex_byte(u: u8, out: &mut Vec<u8>)
    ensures
        final(out)@ == old(out)@ + hex_byte(u),
{
    let hi = u / 16;
    let lo = u % 16;
    out.push(32);
    out.push(if hi < 10 { 48 + hi } else { 87 + hi });
    out.push(if lo < 10 { 48 + lo } else { 87 + lo });
    assert(final(out)@ =~= old(out)@ + hex_byte(u));
}

/// Appends the label of entry `index`, right-aligned in `width` columns.
fn push_index_label(index: usize, width: usize, out: &mut Vec<u8>)
    ensures
        final(out)@ == old(out)@ + index_label(index as nat, width as nat),
{
    let mut digits: Vec<u8> = Vec::new();
    push_decimal(index as u64, &mut digits);
    assert(digits@ =~= decimal(index as nat));
    let mut pad: usize = 0;
    let ghost start = out@;
    while pad + digits.len() < width
        invariant
            out@ == start + spaces(pad as nat),
            pad + digits@.len() <= width || pad == 0,
            start == old(out)@,
        decreases width - pad,
    {
        out.push(32);
        pad = pad + 1;
        assert(out@ =~= start + spaces(pad as nat));
    }
    push_bytes(out, digits.as_slice());
    out.push(41);
    out.push(32);
    assert(final(out)@ =~= old(out)@ + index_label(index as nat, width as nat));
}

/// Numbers that fit in a `u64` have at most twenty digits.
proof fn lemma_decimal_len_u64(n: nat)
    requires
        n <= u64::MAX,
    ensures
        decimal(n).len() <= 20,
{
    assert(pow10(20) == 100000000000000000000) by {
        reveal_with_fuel(pow10, 21);
    }
    lemma_decimal_len(n, 20);
}

/// One more entry: its label, its rendering, and a line break unless it is
/// the last.
proof fn lemma_entries_step(items: Seq<SpecValue>, indent: nat, width: nat, i: nat)
    requires
        i < items.len(),
    ensures
        entries(items, indent, width, i + 1) == entries(items, indent, width, i) + (if i == 0 {
            index_label(1, (width - indent) as nat)
        } else {
            index_label(i + 1, width)
        }) + pretty(items[i as int], width + 3) + (if i + 1 < items.len() {
            seq![10u8]
        } else {
            Seq::empty()
        }),
{
}

/// `hex_list` writes only ASCII.
proof fn lemma_hex_list_ascii(b: Seq<u8>)
    ensures
        is_ascii_bytes(hex_list(b)),
    decreases b.len(),
{
    if b.len() > 0 {
        lemma_hex_list_ascii(b.drop_last());
        let h = hex_list(b);
        let l = hex_list(b.drop_last());
        assert forall|i: int| 0 <= i < h.len() implies #[trigger] h[i] < 128 by {
            if i >= l.len() {
                assert(h[i] == hex_byte(b.last())[i - l.len()]);
            } else {
                assert(h[i] == l[i]);
            }
        }
    }
}

/// The rendering of any value is valid UTF-8.
pub proof fn lemma_pretty_valid(v: SpecValue, indent: nat)
    ensures
        valid_utf8(pretty(v, indent)),
    decreases v, 0int, 0int,
{
    broadcast use valid_utf8_concat, encode_utf8_valid_utf8;

    match v {
        SpecValue::Integer(n) => {
            lemma_signed_decimal_ascii(n);
            lemma_ascii_valid_utf8(signed_decimal(n));
            encode_utf8_valid_utf8("(Integer) "@);
            valid_utf8_concat(encode_utf8("(Integer) "@), signed_decimal(n));
        },
        SpecValue::Error(text) => {
            valid_utf8_concat(encode_utf8("(Error) "@), encode_utf8(text));
        },
        SpecValue::Bulk(text) => {
            lemma_ascii_valid_utf8(seq![34u8]);
            valid_utf8_concat(seq![34u8], encode_utf8(text));
            valid_utf8_concat(seq![34u8] + encode_utf8(text), seq![34u8]);
        },
        SpecValue::BufBulk(b) => {
            if b.len() > 0 {
                let shown = if b.len() > 16 {
                    b.take(16)
                } else {
                    b
                };
                let more = if b.len() > 16 {
                    seq![32u8, 46u8, 46u8, 46u8]
                } else {
                    Seq::empty()
                };
                lemma_hex_list_ascii(shown);
                let all = hex_list(shown) + more;
                assert(is_ascii_bytes(all.drop_first())) by {
                    assert forall|i: int| 0 <= i < all.drop_first().len() implies #[trigger] all.drop_first()[i] < 128 by {
                        assert(all.drop_first()[i] == all[i + 1]);
                        if i + 1 >= hex_list(shown).len() {
                            assert(all[i + 1] == more[i + 1 - hex_list(shown).len()]);
                        }
                    }
                }
                lemma_ascii_valid_utf8(all.drop_first());
                valid_utf8_concat(encode_utf8("(Buffer) "@), all.drop_first());
            }
        },
        SpecValue::Array(items) => {
            if items.len() > 0 {
                let width = if indent > decimal(items.len()).len() {
                    indent
                } else {
                    decimal(items.len()).len()
                };
                lemma_entries_valid(items, indent, width, items.len());
            }
        },
        _ => {},
    }
}

/// The entries of an array render as valid UTF-8.
proof fn lemma_entries_valid(items: Seq<SpecValue>, indent: nat, width: nat, n: nat)
    ensures
        valid_utf8(entries(items, indent, width, n)),
    decreases items, 1int, n,
{
    broadcast use valid_utf8_concat;

    if n > 0 && n <= items.len() {
        let i = (n - 1) as nat;
        lemma_entries_valid(items, indent, width, i);
        lemma_pretty_valid(items[i as int], width + 3);
        let w = if i == 0 {
            (width - indent) as nat
        } else {
            width
        };
        let index = if i == 0 {
            1nat
        } else {
            n
        };
        lemma_index_label_ascii(index, w);
        lemma_ascii_valid_utf8(index_label(index, w));
        let newline = if n < items.len() {
            seq![10u8]
        } else {
            Seq::empty()
        };
        assert(is_ascii_bytes(newline));
        lemma_ascii_valid_utf8(newline);
        let a = entries(items, indent, width, i);
        let b = index_label(index, w);
        let c = pretty(items[i as int], width + 3);
        valid_utf8_concat(a, b);
        valid_utf8_concat(a + b, c);
        valid_utf8_concat(a + b + c, newline);
        assert(entries(items, indent, width, n) == a + b + c + newline);
    }
}

/// Labels are ASCII.
proof fn lemma_index_label_ascii(index: nat, width: nat)
    ensures
        is_ascii_bytes(index_label(index, width)),
{
    lemma_decimal_digits(index);
    let digits = decimal(index);
    let pad = if width > digits.len() {
        (width - digits.len()) as nat
    } else {
        0
    };
    let l = index_label(index, width);
    assert forall|i: int| 0 <= i < l.len() implies #[trigger] l[i] < 128 by {
        if i < pad {
            assert(l[i] == spaces(pad)[i]);
        } else if i < pad + digits.len() {
            assert(l[i] == digits[i - pad]);
        }
    }
}

/// Signed decimal text is ASCII.
proof fn lemma_signed_decimal_ascii(n: int)
    ensures
        is_ascii_bytes(signed_decimal(n)),
{
    let t = signed_decimal(n);
    let m: nat = if n < 0 {
        (-n) as nat
    } else {
        n as nat
    };
    lemma_decimal_digits(m);
    assert forall|i: int| 0 <= i < t.len() implies #[trigger] t[i] < 128 by {
        if n < 0 && i > 0 {
            assert(t[i] == decimal(m)[i - 1]);
        }
    }
}

/// Appends `buffer_text(b)`.
fn push_buffer_text(b: &[u8], out: &mut Vec<u8>)
    requires
        b@.len() > 0,
    ensures
        final(out)@ == old(out)@ + buffer_text(b@),
{
    let shown: usize = if b.len() > 16 {
        16
    } else {
        b.len()
    };
    let ghost seen = if b@.len() > 16 {
        b@.take(16)
    } else {
        b@
    };
    assert(seen =~= b@.take(shown as int));
    let mut hex: Vec<u8> = Vec::new();
    let mut i: usize = 0;
    while i < shown
        invariant
            shown <= b@.len(),
            i <= shown,
            hex@ == hex_list(b@.take(i as int)),
        decreases shown - i,
    {
        assert(b@.take(i + 1).drop_last() =~= b@.take(i as int));
        push_hex_byte(b[i], &mut hex);
        i = i + 1;
    }
    if b.len() > 16 {
        hex.push(32);
        hex.push(46);
        hex.push(46);
        hex.push(46);
    }
    let ghost whole = hex@;
    assert(whole =~= hex_list(seen) + if b@.len() > 16 {
        seq![32u8, 46u8, 46u8, 46u8]
    } else {
        Seq::empty()
    });
    assert(hex_list(seen).len() > 0) by {
        assert(seen.len() > 0);
    }
    push_bytes(out, &hex.as_slice()[1..hex.len()]);
    assert(final(out)@ =~= old(out)@ + buffer_text(b@));
}

/// Appends `pretty(v, indent)`.
#[verifier::rlimit(60)]
pub fn pretty_into(v: &Value, indent: usize, out: &mut Vec<u8>)
    requires
        fits(v@, indent as nat),
    ensures
        final(out)@ == old(out)@ + pretty(v@, indent as nat),
    decreases v,
{
    match v {
        Value::Null => push_str(out, "(Null)"),
        Value::NullArray => push_str(out, "(Null Array)"),
        Value::String(val) => push_str(out, val.as_str()),
        Value::Error(val) => {
            push_str(out, "(Error) ");
            push_str(out, val.as_str());
            assert(final(out)@ =~= old(out)@ + pretty(v@, indent as nat));
        },
        Value::Integer(val) => {
            push_str(out, "(Integer) ");
            push_signed_decimal(*val, out);
            assert(final(out)@ =~= old(out)@ + pretty(v@, indent as nat));
        },
        Value::Bulk(val) => {
            out.push(34);
            push_str(out, val.as_str());
            out.push(34);
            assert(final(out)@ =~= old(out)@ + pretty(v@, indent as nat));
        },
        Value::BufBulk(val) => {
            if val.len() == 0 {
                push_str(out, "(Empty Buffer)");
            } else {
                push_str(out, "(Buffer) ");
                push_buffer_text(val.as_slice(), out);
                assert(final(out)@ =~= old(out)@ + pretty(v@, indent as nat));
            }
        },
        Value::Array(items) => {
            if items.len() == 0 {
                push_str(out, "(Empty Array)");
                return ;
            }
            let mut digits: Vec<u8> = Vec::new();
            push_decimal(items.len() as u64, &mut digits);
            let dlen = digits.len();
            proof {
                lemma_decimal_len_u64(items@.len());
                assert(digits@ =~= decimal(items@.len()));
            }
            let width: usize = if indent > dlen {
                indent
            } else {
                dlen
            };
            let ghost models = v@->Array_0;
            let ghost start = out@;
            let mut i: usize = 0;
            while i < items.len()
                invariant
                    *v == Value::Array(*items),
                    models == v@->Array_0,
                    models.len() == items@.len(),
                    fits(v@, indent as nat),
                    width as nat == if indent as nat > decimal(models.len()).len() {
                        indent as nat
                    } else {
                        decimal(models.len()).len()
                    },
                    width <= if indent > 20 {
                        indent
                    } else {
                        20
                    },
                    indent <= width,
                    i <= items@.len(),
                    out@ == start + entries(models, indent as nat, width as nat, i as nat),
                decreases items@.len() - i,
            {
                let ghost before = out@;
                if i == 0 {
                    push_index_label(1, width - indent, out);
                } else {
                    push_index_label(i + 1, width, out);
                }
                let ghost labelled = out@;
                proof {
                    assert(decreases_to!(*v => v->Array_0));
                    assert(decreases_to!(v->Array_0 => v->Array_0@));
                    assert(decreases_to!(v->Array_0@ => items@[i as int]));
                    lemma_nesting_items(models, models.len(), i as int);
                    assert(models[i as int] == items@[i as int]@);
                }
                pretty_into(&items[i], width + 3, out);
                let ghost rendered = out@;
                if i + 1 < items.len() {
                    out.push(10);
                }
                proof {
                    lemma_entries_step(models, indent as nat, width as nat, i as nat);
                    assert(out@ =~= start + entries(
                        models,
                        indent as nat,
                        width as nat,
                        (i + 1) as nat,
                    ));
                }
                i = i + 1;
            }
            assert(final(out)@ =~= old(out)@ + pretty(v@, indent as nat));
        },
    }
}

} // verus!
