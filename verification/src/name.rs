//! Domain names on the wire.
//!
//! A name is carried as its dotted presentation bytes (`b"www.example.com"`).
//! On the wire it is a run of length-prefixed labels ended by a zero octet;
//! a length octet with both top bits set is instead a 14-bit pointer back
//! into the message.  This module defines the label split/join, the wire
//! encoding, the pointer-following parser, and the lemmas showing that the
//! parser inverts the encoder on pointer-free encodings.

use vstd::prelude::*;

use crate::types::DnsError;

verus! {

/// ASCII lowercasing of one octet.
pub open spec fn lower_byte(b: u8) -> u8 {
    if 65 <= b && b <= 90 {
        (b + 32) as u8
    } else {
        b
    }
}

/// ASCII lowercasing, octet by octet.
pub open spec fn lower_seq(s: Seq<u8>) -> Seq<u8> {
    s.map_values(|b: u8| lower_byte(b))
}

/// Split `s[i..]` at dots, `cur` being the label read so far.
pub open spec fn split_labels_from(s: Seq<u8>, i: int, cur: Seq<u8>) -> Seq<Seq<u8>>
    decreases s.len() - i,
{
    if i < 0 || i >= s.len() {
        seq![cur]
    } else if s[i] == 46u8 {
        seq![cur] + split_labels_from(s, i + 1, Seq::<u8>::empty())
    } else {
        split_labels_from(s, i + 1, cur.push(s[i]))
    }
}

/// The dot-separated labels of a name; `""` splits into one empty label.
pub open spec fn split_labels(s: Seq<u8>) -> Seq<Seq<u8>> {
    split_labels_from(s, 0, Seq::<u8>::empty())
}

/// Labels joined by dots.
pub open spec fn join_labels(ls: Seq<Seq<u8>>) -> Seq<u8>
    decreases ls.len(),
{
    if ls.len() == 0 {
        Seq::<u8>::empty()
    } else if ls.len() == 1 {
        ls[0]
    } else {
        ls[0] + seq![46u8] + join_labels(ls.drop_first())
    }
}

/// One label on the wire: its length octet, then its octets.
pub open spec fn enc_label(l: Seq<u8>) -> Seq<u8> {
    seq![l.len() as u8] + l
}

/// A run of labels on the wire, without the terminating zero octet.
pub open spec fn enc_labels(ls: Seq<Seq<u8>>) -> Seq<u8>
    decreases ls.len(),
{
    if ls.len() == 0 {
        Seq::<u8>::empty()
    } else {
        enc_label(ls[0]) + enc_labels(ls.drop_first())
    }
}

/// A whole name on the wire: its labels, then the zero octet.
pub open spec fn enc_name(s: Seq<u8>) -> Seq<u8> {
    enc_labels(split_labels(s)) + seq![0u8]
}

/// Every label fits the 63-octet wire limit, so the name can be emitted.
pub open spec fn name_sendable(s: Seq<u8>) -> bool {
    forall|k: int|
        0 <= k < split_labels(s).len() ==> (#[trigger] split_labels(s)[k]).len() <= 63
}

/// Every label is 1 to 63 octets: the shape that survives a decode.
pub open spec fn name_wf(s: Seq<u8>) -> bool {
    forall|k: int|
        0 <= k < split_labels(s).len() ==> 1 <= (#[trigger] split_labels(s)[k]).len() <= 63
}

/// Append one (already lowercased) label to a partly built name.
pub open spec fn join1(acc: Seq<u8>, l: Seq<u8>) -> Seq<u8> {
    if acc.len() == 0 {
        l
    } else {
        acc + seq![46u8] + l
    }
}

/// Fold a label list onto a partly built name, lowercasing as the
/// wire reader does.
pub open spec fn acc_labels(acc: Seq<u8>, ls: Seq<Seq<u8>>) -> Seq<u8>
    decreases ls.len(),
{
    if ls.len() == 0 {
        acc
    } else {
        acc_labels(join1(acc, lower_seq(ls[0])), ls.drop_first())
    }
}

/// One step of the wire-name reader.
///
/// `pos` is the local read position, `hops` the pointers followed so far,
/// `acc` the name built so far, and `cur` the cursor saved at the first
/// pointer (`None` while no pointer was followed).  Mirrors the reader:
/// at most five pointer hops, and the cursor ends two octets past the
/// start of the name as soon as one pointer was taken.
pub open spec fn parse_qname_rec(
    buf: Seq<u8>,
    pos: int,
    hops: int,
    acc: Seq<u8>,
    cur: Option<int>,
) -> Result<(Seq<u8>, int), DnsError>
    decreases 6 - hops, 512 - pos,
{
    if hops > 5 {
        Err(DnsError::JumpLimit)
    } else if pos < 0 || pos >= 512 {
        Err(DnsError::OutOfBounds)
    } else {
        let len = buf[pos];
        if len >= 192 {
            if pos + 1 >= 512 {
                Err(DnsError::OutOfBounds)
            } else {
                let target = (len - 192) * 256 + buf[pos + 1];
                let cur2 = match cur {
                    Option::None => Option::Some(pos + 2),
                    Option::Some(c) => Option::Some(c),
                };
                parse_qname_rec(buf, target as int, hops + 1, acc, cur2)
            }
        } else if len == 0 {
            let end = match cur {
                Option::None => pos + 1,
                Option::Some(c) => c,
            };
            Ok((acc, end))
        } else if pos + 1 + len > 512 {
            Err(DnsError::OutOfBounds)
        } else {
            let label = lower_seq(buf.subrange(pos + 1, pos + 1 + len));
            parse_qname_rec(buf, pos + 1 + len, hops, join1(acc, label), cur)
        }
    }
}

/// The pointer budget is hard: once a sixth hop is taken, reading a
/// name fails with `JumpLimit`, whatever the buffer holds.  Together
/// with the reader's termination metric this bounds every read to
/// five pointer hops.
pub proof fn lemma_jump_limit(buf: Seq<u8>, pos: int, hops: int, acc: Seq<u8>, cur: Option<int>)
    requires
        hops > 5,
    ensures
        parse_qname_rec(buf, pos, hops, acc, cur) == Err::<(Seq<u8>, int), DnsError>(
            DnsError::JumpLimit,
        ),
{
}

/// What reading a wire name at `pos` yields: the lowercased dotted name
/// and the cursor position after it.
pub open spec fn spec_read_qname(buf: Seq<u8>, pos: int) -> Result<(Seq<u8>, int), DnsError> {
    parse_qname_rec(buf, pos, 0, Seq::<u8>::empty(), Option::None)
}

/// `b` is a suffix of `a`.
pub open spec fn ends_with(a: Seq<u8>, b: Seq<u8>) -> bool {
    b.len() <= a.len() && a.subrange(a.len() - b.len(), a.len() as int) == b
}

/// `domain` is a label-aligned, case-insensitive suffix of `qname`:
/// either the whole name, or a suffix beginning right after a dot.
pub open spec fn is_label_suffix(domain: Seq<u8>, qname: Seq<u8>) -> bool {
    lower_seq(domain) == lower_seq(qname) || ends_with(
        lower_seq(qname),
        seq![46u8] + lower_seq(domain),
    )
}

/// Lowercasing distributes over concatenation.
pub proof fn lemma_lower_distributes(a: Seq<u8>, b: Seq<u8>)
    ensures
        lower_seq(a + b) == lower_seq(a) + lower_seq(b),
{
    assert(lower_seq(a + b) =~= lower_seq(a) + lower_seq(b));
}

/// A split never yields an empty label list.
pub proof fn lemma_split_nonempty(s: Seq<u8>, i: int, cur: Seq<u8>)
    ensures
        split_labels_from(s, i, cur).len() >= 1,
    decreases s.len() - i,
{
    if i < 0 || i >= s.len() {
    } else if s[i] == 46u8 {
    } else {
        lemma_split_nonempty(s, i + 1, cur.push(s[i]));
    }
}

/// Peeling the head off a label list under `enc_labels`.
pub proof fn lemma_enc_labels_cons(l: Seq<u8>, rest: Seq<Seq<u8>>)
    ensures
        enc_labels(seq![l] + rest) == enc_label(l) + enc_labels(rest),
{
    let ls = seq![l] + rest;
    assert(ls[0] == l);
    assert(ls.drop_first() =~= rest);
}

/// `enc_labels` distributes over concatenation of label lists.
pub proof fn lemma_enc_labels_concat(a: Seq<Seq<u8>>, b: Seq<Seq<u8>>)
    ensures
        enc_labels(a + b) == enc_labels(a) + enc_labels(b),
    decreases a.len(),
{
    if a.len() == 0 {
        assert(a + b =~= b);
        assert(enc_labels(a) + enc_labels(b) =~= enc_labels(b));
    } else {
        assert((a + b)[0] == a[0]);
        assert((a + b).drop_first() =~= a.drop_first() + b);
        lemma_enc_labels_concat(a.drop_first(), b);
        assert(enc_labels(a + b) == enc_label(a[0]) + (enc_labels(a.drop_first()) + enc_labels(
            b,
        )));
        assert(enc_label(a[0]) + (enc_labels(a.drop_first()) + enc_labels(b)) =~= (enc_label(a[0])
            + enc_labels(a.drop_first())) + enc_labels(b));
    }
}

/// The wire form of the labels of `s[i..]` (with `cur` pending) takes
/// one octet more than the text: each label costs its length plus one,
/// and the dots of the text pay for all but one of the length octets.
pub proof fn lemma_enc_split_len(s: Seq<u8>, i: int, cur: Seq<u8>)
    requires
        0 <= i <= s.len(),
    ensures
        enc_labels(split_labels_from(s, i, cur)).len() == 1 + cur.len() + s.len() - i,
    decreases s.len() - i,
{
    if i >= s.len() {
        let ls = split_labels_from(s, i, cur);
        assert(ls =~= seq![cur] + Seq::<Seq<u8>>::empty());
        lemma_enc_labels_cons(cur, Seq::<Seq<u8>>::empty());
        assert(enc_labels(Seq::<Seq<u8>>::empty()).len() == 0);
        assert(enc_label(cur).len() == 1 + cur.len());
        assert(enc_label(cur) + enc_labels(Seq::<Seq<u8>>::empty()) =~= enc_label(cur));
    } else if s[i] == 46u8 {
        lemma_enc_split_len(s, i + 1, Seq::<u8>::empty());
        lemma_enc_labels_cons(cur, split_labels_from(s, i + 1, Seq::<u8>::empty()));
        assert(enc_label(cur).len() == 1 + cur.len());
    } else {
        lemma_enc_split_len(s, i + 1, cur.push(s[i]));
    }
}

/// A name's wire form takes exactly two octets more than its text.
pub proof fn lemma_enc_name_len(s: Seq<u8>)
    ensures
        enc_name(s).len() == s.len() + 2,
{
    lemma_enc_split_len(s, 0, Seq::<u8>::empty());
}

/// Joining undoes splitting: the labels of `s[i..]` joined by dots give
/// back `cur` followed by `s[i..]`.
pub proof fn lemma_join_split(s: Seq<u8>, i: int, cur: Seq<u8>)
    requires
        0 <= i <= s.len(),
    ensures
        join_labels(split_labels_from(s, i, cur)) == cur + s.subrange(i, s.len() as int),
    decreases s.len() - i,
{
    if i >= s.len() {
        assert(split_labels_from(s, i, cur) == seq![cur]);
        assert(cur + s.subrange(i, s.len() as int) =~= cur);
    } else if s[i] == 46u8 {
        lemma_join_split(s, i + 1, Seq::<u8>::empty());
        let rest = split_labels_from(s, i + 1, Seq::<u8>::empty());
        lemma_split_nonempty(s, i + 1, Seq::<u8>::empty());
        let ls = seq![cur] + rest;
        assert(ls[0] == cur);
        assert(ls.drop_first() =~= rest);
        assert(ls.len() >= 2);
        assert(join_labels(ls) == cur + seq![46u8] + join_labels(rest));
        assert(Seq::<u8>::empty() + s.subrange(i + 1, s.len() as int) =~= s.subrange(
            i + 1,
            s.len() as int,
        ));
        assert(cur + seq![46u8] + s.subrange(i + 1, s.len() as int) =~= cur + s.subrange(
            i,
            s.len() as int,
        ));
    } else {
        lemma_join_split(s, i + 1, cur.push(s[i]));
        assert(cur.push(s[i]) + s.subrange(i + 1, s.len() as int) =~= cur + s.subrange(
            i,
            s.len() as int,
        ));
    }
}

/// Splitting one label off the text: if `s[start..j]` holds no dot and
/// `j` is the end of the text or a dot, then `s[start..j]` is the first
/// label of `s[start..]`.
pub proof fn lemma_split_peel(s: Seq<u8>, start: int, j: int, cur: Seq<u8>)
    requires
        0 <= start <= j <= s.len(),
        forall|k: int| start <= k < j ==> s[k] != 46u8,
        j < s.len() ==> s[j] == 46u8,
    ensures
        split_labels_from(s, start, cur) == if j == s.len() {
            seq![cur + s.subrange(start, j)]
        } else {
            seq![cur + s.subrange(start, j)] + split_labels_from(s, j + 1, Seq::<u8>::empty())
        },
    decreases j - start,
{
    if start == j {
        assert(cur + s.subrange(start, j) =~= cur);
    } else {
        assert(s[start] != 46u8);
        lemma_split_peel(s, start + 1, j, cur.push(s[start]));
        assert(cur.push(s[start]) + s.subrange(start + 1, j) =~= cur + s.subrange(start, j));
    }
}

/// Folding lowercased labels equals lowercasing their dotted join.
pub proof fn lemma_acc_labels_join(acc: Seq<u8>, ls: Seq<Seq<u8>>)
    requires
        ls.len() >= 1,
        forall|k: int| 0 <= k < ls.len() ==> (#[trigger] ls[k]).len() >= 1,
    ensures
        acc_labels(acc, ls) == join1(acc, lower_seq(join_labels(ls))),
    decreases ls.len(),
{
    if ls.len() == 1 {
        assert(acc_labels(join1(acc, lower_seq(ls[0])), ls.drop_first()) == join1(
            acc,
            lower_seq(ls[0]),
        ));
    } else {
        let rest = ls.drop_first();
        assert(forall|k: int| 0 <= k < rest.len() ==> (#[trigger] rest[k]).len() >= 1);
        lemma_acc_labels_join(join1(acc, lower_seq(ls[0])), rest);
        lemma_lower_distributes(ls[0] + seq![46u8], join_labels(rest));
        lemma_lower_distributes(ls[0], seq![46u8]);
        assert(lower_seq(seq![46u8]) =~= seq![46u8]);
        assert(join_labels(ls) == ls[0] + seq![46u8] + join_labels(rest));
        assert(lower_seq(ls[0] + seq![46u8]) == lower_seq(ls[0]) + seq![46u8]);
        assert((ls[0] + seq![46u8]) + join_labels(rest) =~= ls[0] + seq![46u8] + join_labels(
            rest,
        ));
        assert(lower_seq(join_labels(ls)) == lower_seq(ls[0]) + seq![46u8] + lower_seq(
            join_labels(rest),
        ));
        assert(lower_seq(ls[0]).len() >= 1);
        if acc.len() == 0 {
            assert(join1(acc, lower_seq(join_labels(ls))) =~= lower_seq(ls[0]) + seq![46u8]
                + lower_seq(join_labels(rest)));
            assert(join1(join1(acc, lower_seq(ls[0])), lower_seq(join_labels(rest))) =~= lower_seq(
                ls[0],
            ) + seq![46u8] + lower_seq(join_labels(rest)));
        } else {
            assert(join1(acc, lower_seq(join_labels(ls))) =~= acc + seq![46u8] + lower_seq(ls[0])
                + seq![46u8] + lower_seq(join_labels(rest)));
            assert(join1(join1(acc, lower_seq(ls[0])), lower_seq(join_labels(rest))) =~= acc
                + seq![46u8] + lower_seq(ls[0]) + seq![46u8] + lower_seq(join_labels(rest)));
        }
    }
}

/// Reading a pointer-free run of wire labels: if the buffer holds
/// `enc_labels(ls)` and the zero octet at `p`, the reader consumes it,
/// folds the lowercased labels onto `acc`, and lands just past the zero
/// octet (or at the saved cursor).
pub proof fn lemma_parse_enc_labels(
    buf: Seq<u8>,
    p: int,
    hops: int,
    acc: Seq<u8>,
    cur: Option<int>,
    ls: Seq<Seq<u8>>,
)
    requires
        buf.len() == 512,
        forall|k: int| 0 <= k < ls.len() ==> 1 <= (#[trigger] ls[k]).len() <= 63,
        0 <= p,
        p + enc_labels(ls).len() + 1 <= 512,
        buf.subrange(p, p + enc_labels(ls).len() + 1) == enc_labels(ls) + seq![0u8],
        0 <= hops <= 5,
    ensures
        parse_qname_rec(buf, p, hops, acc, cur) == Ok::<(Seq<u8>, int), DnsError>(
            (
                acc_labels(acc, ls),
                match cur {
                    Option::None => p + enc_labels(ls).len() + 1,
                    Option::Some(c) => c,
                },
            ),
        ),
    decreases ls.len(),
{
    let region = buf.subrange(p, p + enc_labels(ls).len() + 1);
    if ls.len() == 0 {
        assert(enc_labels(ls).len() == 0);
        assert(buf[p] == region[0]);
        assert(buf[p] == 0u8);
    } else {
        let l0 = ls[0];
        let rest = ls.drop_first();
        assert(seq![l0] + rest =~= ls);
        lemma_enc_labels_cons(l0, rest);
        let n0 = l0.len() as int;
        assert(enc_labels(ls) == enc_label(l0) + enc_labels(rest));
        assert(enc_labels(ls).len() == 1 + n0 + enc_labels(rest).len());
        assert(buf[p] == region[0]);
        assert(region[0] == enc_label(l0)[0]);
        assert(buf[p] == l0.len() as u8);
        assert(1 <= buf[p] <= 63);
        // the label octets
        assert(buf.subrange(p + 1, p + 1 + n0) =~= l0) by {
            assert forall|k: int| 0 <= k < n0 implies buf.subrange(p + 1, p + 1 + n0)[k] == l0[k] by {
                assert(buf.subrange(p + 1, p + 1 + n0)[k] == region[1 + k]);
                assert(region[1 + k] == enc_labels(ls)[1 + k]);
                assert(enc_labels(ls)[1 + k] == enc_label(l0)[1 + k]);
                assert(enc_label(l0)[1 + k] == l0[k]);
            }
        }
        let p2 = p + 1 + n0;
        assert(buf.subrange(p2, p2 + enc_labels(rest).len() + 1) =~= enc_labels(rest) + seq![0u8])
            by {
            let m = enc_labels(rest).len() + 1;
            assert forall|k: int|
                0 <= k < m implies buf.subrange(p2, p2 + m)[k] == (enc_labels(rest)
                + seq![0u8])[k] by {
                assert(buf.subrange(p2, p2 + m)[k] == region[1 + n0 + k]);
                assert(region[1 + n0 + k] == (enc_labels(ls) + seq![0u8])[1 + n0 + k]);
                assert((enc_labels(ls) + seq![0u8])[1 + n0 + k] == (enc_labels(rest)
                    + seq![0u8])[k]);
            }
        }
        lemma_parse_enc_labels(buf, p2, hops, join1(acc, lower_seq(l0)), cur, rest);
        assert(parse_qname_rec(buf, p, hops, acc, cur) == parse_qname_rec(
            buf,
            p2,
            hops,
            join1(acc, lower_seq(buf.subrange(p + 1, p + 1 + n0))),
            cur,
        ));
    }
}

/// Reading back an encoded name: where the buffer holds `enc_name(name)`
/// at `p`, the reader returns the lowercased name and stops right after it.
pub proof fn lemma_read_encoded_name(buf: Seq<u8>, p: int, name: Seq<u8>)
    requires
        buf.len() == 512,
        name_wf(name),
        0 <= p,
        p + name.len() + 2 <= 512,
        buf.subrange(p, p + name.len() + 2) == enc_name(name),
    ensures
        spec_read_qname(buf, p) == Ok::<(Seq<u8>, int), DnsError>(
            (lower_seq(name), p + name.len() + 2),
        ),
{
    let ls = split_labels(name);
    lemma_enc_name_len(name);
    lemma_enc_split_len(name, 0, Seq::<u8>::empty());
    assert(enc_labels(ls).len() == name.len() + 1);
    lemma_split_nonempty(name, 0, Seq::<u8>::empty());
    lemma_parse_enc_labels(buf, p, 0, Seq::<u8>::empty(), Option::None, ls);
    lemma_acc_labels_join(Seq::<u8>::empty(), ls);
    lemma_join_split(name, 0, Seq::<u8>::empty());
    assert(Seq::<u8>::empty() + name.subrange(0, name.len() as int) =~= name);
    assert(join_labels(ls) == name);
    assert(acc_labels(Seq::<u8>::empty(), ls) == lower_seq(name));
}

} // verus!
