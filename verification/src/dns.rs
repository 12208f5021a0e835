//! Domain names on the wire.

use vstd::prelude::*;
use vstd::utf8::{decode_utf8, encode_utf8, valid_utf8};

use crate::bytes::text_from_utf8;
use crate::text::{
    join, joined, lower, lowercase, split, split_char, strip_end, texts, trim_end_char,
};

verus! {

/// The largest number of labels and compression pointers that one name may take.
pub const MAX_STEPS: usize = 65;

/// One label on the wire: its length, then its bytes, cut off at 63.
pub open spec fn wire_label(label: Seq<char>) -> Seq<u8> {
    let b = encode_utf8(label);
    let n = if b.len() < 63 {
        b.len() as int
    } else {
        63
    };
    seq![n as u8] + b.take(n)
}

/// Labels on the wire, one behind the other.
pub open spec fn wire_labels(labels: Seq<Seq<char>>) -> Seq<u8>
    decreases labels.len(),
{
    if labels.len() == 0 {
        Seq::empty()
    } else {
        wire_labels(labels.drop_last()) + wire_label(labels.last())
    }
}

/// A name on the wire: the labels between its dots, without the dots that it
/// ends in, and the empty label of the root.
pub open spec fn wire_name(name: Seq<char>) -> Seq<u8> {
    let bare = strip_end(name, '.');
    if bare.len() == 0 {
        seq![0u8]
    } else {
        wire_labels(split(bare, '.')).push(0)
    }
}

/// The labels of the name at `at`, in lower case, if it can be read in the
/// given number of steps. Each label and each compression pointer takes one
/// step, and so does the end of the name.
pub open spec fn labels_at(packet: Seq<u8>, at: int, steps: nat) -> Option<Seq<Seq<char>>>
    decreases steps,
{
    if steps == 0 || at < 0 || at >= packet.len() {
        None
    } else {
        let len = packet[at] as int;
        if len == 0 {
            Some(Seq::empty())
        } else if len >= 0xc0 {
            if at + 1 >= packet.len() {
                None
            } else {
                labels_at(packet, (len - 0xc0) * 256 + packet[at + 1], (steps - 1) as nat)
            }
        } else if at + 1 + len > packet.len() || !valid_utf8(
            packet.subrange(at + 1, at + 1 + len),
        ) {
            None
        } else {
            match labels_at(packet, at + 1 + len, (steps - 1) as nat) {
                Some(rest) => Some(
                    seq![lower(decode_utf8(packet.subrange(at + 1, at + 1 + len)))] + rest,
                ),
                None => None,
            }
        }
    }
}

/// Where the name at `at` ends in the packet: behind the empty label of the
/// root or behind the first compression pointer.
pub open spec fn name_end(packet: Seq<u8>, at: int, steps: nat) -> int
    decreases steps,
{
    let len = packet[at] as int;
    if steps == 0 || len == 0 {
        at + 1
    } else if len >= 0xc0 {
        at + 2
    } else {
        name_end(packet, at + 1 + len, (steps - 1) as nat)
    }
}

/// The labels of a name with dots between them and one behind.
pub open spec fn dotted_name(labels: Seq<Seq<char>>) -> Seq<char> {
    joined(labels, "."@).push('.')
}

/// The name at `at`, with a trailing dot and in lower case.
pub open spec fn name_at(packet: Seq<u8>, at: int) -> Option<Seq<char>> {
    match labels_at(packet, at, MAX_STEPS as nat) {
        Some(labels) => Some(dotted_name(labels)),
        None => None,
    }
}

/// Labels read so far, before the labels still to be read.
spec fn behind(done: Seq<Seq<char>>, rest: Option<Seq<Seq<char>>>) -> Option<Seq<Seq<char>>> {
    match rest {
        Some(r) => Some(done + r),
        None => None,
    }
}

/// Reads the name at `at`; returns it with the place where it ends.
pub fn read_name(packet: &[u8], at: usize) -> (r: Option<(String, usize)>)
    ensures
        match r {
            Some((name, end)) => {
                &&& name_at(packet@, at as int) == Some(name@)
                &&& end == name_end(packet@, at as int, MAX_STEPS as nat)
                &&& end <= packet@.len()
            },
            None => name_at(packet@, at as int) is None,
        },
{
    let mut labels: Vec<String> = Vec::new();
    let mut end: usize = 0;
    let mut jumped = false;
    let mut cursor: usize = at;
    let mut steps: usize = MAX_STEPS;
    let n: usize = packet.len();
    proof {
        let all = labels_at(packet@, at as int, MAX_STEPS as nat);
        assert(behind(texts(labels@), all) =~= all) by {
            if all is Some {
                assert(texts(labels@) + all->0 =~= all->0);
            }
        }
    }
    while steps > 0 && cursor < n && packet[cursor] != 0
        invariant
            steps <= MAX_STEPS,
            n == packet@.len(),
            labels_at(packet@, at as int, MAX_STEPS as nat) == behind(
                texts(labels@),
                labels_at(packet@, cursor as int, steps as nat),
            ),
            !jumped ==> name_end(packet@, at as int, MAX_STEPS as nat) == name_end(
                packet@,
                cursor as int,
                steps as nat,
            ),
            jumped ==> end == name_end(packet@, at as int, MAX_STEPS as nat) && end <= n,
        decreases steps,
    {
        let len: u8 = packet[cursor];
        if len >= 0xc0 {
            if n - cursor < 2 {
                return None;
            }
            let target: usize = (len - 0xc0) as usize * 256 + packet[cursor + 1] as usize;
            if !jumped {
                end = cursor + 2;
                jumped = true;
            }
            cursor = target;
        } else {
            let size: usize = len as usize;
            if n - cursor - 1 < size {
                return None;
            }
            let ghost before = labels@;
            match text_from_utf8(&packet[cursor + 1..cursor + 1 + size]) {
                None => {
                    return None;
                },
                Some(label) => {
                    labels.push(lowercase(label));
                    proof {
                        let l = labels@.last()@;
                        assert(texts(labels@) =~= texts(before).push(l));
                        let rest = labels_at(packet@, cursor + 1 + size, (steps - 1) as nat);
                        if rest is Some {
                            assert(texts(before) + (seq![l] + rest->0) =~= texts(labels@)
                                + rest->0);
                        }
                    }
                },
            }
            cursor = cursor + 1 + size;
        }
        steps -= 1;
    }
    if steps == 0 || cursor >= n {
        return None;
    }
    if !jumped {
        end = cursor + 1;
    }
    proof {
        assert(texts(labels@) + Seq::<Seq<char>>::empty() =~= texts(labels@));
    }
    let mut name = join(&labels, ".");
    name.push('.');
    Some((name, end))
}

/// Writes a name for the wire.
pub fn encode_name(name: &str) -> (r: Vec<u8>)
    ensures
        r@ == wire_name(name@),
{
    let bare = trim_end_char(name, '.');
    let mut out: Vec<u8> = Vec::new();
    if bare.as_str().is_empty() {
        out.push(0);
        proof {
            assert(out@ =~= seq![0u8]);
        }
        return out;
    }
    let labels = split_char(bare.as_str(), '.');
    let ghost all = texts(labels@);
    let mut i: usize = 0;
    while i < labels.len()
        invariant
            i <= labels@.len(),
            all == texts(labels@),
            out@ == wire_labels(all.take(i as int)),
        decreases labels@.len() - i,
    {
        let label = labels[i].as_str().as_bytes();
        let len: usize = if label.len() < 63 {
            label.len()
        } else {
            63
        };
        let ghost before = out@;
        out.push(len as u8);
        out.extend_from_slice(&label[0..len]);
        proof {
            assert(all.take(i + 1).drop_last() =~= all.take(i as int));
            assert(label@.subrange(0, len as int) =~= label@.take(len as int));
            assert(out@ =~= before + wire_label(all[i as int]));
        }
        i += 1;
    }
    out.push(0);
    proof {
        assert(all.take(i as int) =~= all);
    }
    out
}

/// Whether a label goes over the wire whole: of one to 63 bytes and without a
/// dot.
pub open spec fn plain_label(label: Seq<char>) -> bool {
    0 < encode_utf8(label).len() <= 63 && !label.contains('.')
}

/// Whether the labels of a name go over the wire whole, and are few enough to
/// be read.
pub open spec fn plain_labels(labels: Seq<Seq<char>>) -> bool {
    &&& 0 < labels.len() < MAX_STEPS
    &&& forall|i: int| 0 <= i < labels.len() ==> plain_label(#[trigger] labels[i])
}

/// Labels in lower case.
pub open spec fn lowered(labels: Seq<Seq<char>>) -> Seq<Seq<char>> {
    labels.map_values(|l: Seq<char>| lower(l))
}

/// A name in lower case is that of its labels in lower case.
proof fn lemma_lower_dotted(labels: Seq<Seq<char>>)
    ensures
        lower(joined(labels, "."@)) == joined(lowered(labels), "."@),
        lower(dotted_name(labels)) == dotted_name(lowered(labels)),
    decreases labels.len(),
{
    reveal_strlit(".");
    if labels.len() == 0 {
        assert(lower(joined(labels, "."@)) =~= joined(lowered(labels), "."@));
    } else if labels.len() > 1 {
        lemma_lower_dotted(labels.drop_last());
        assert(lowered(labels).drop_last() =~= lowered(labels.drop_last()));
        assert(lower(joined(labels, "."@)) =~= joined(lowered(labels), "."@));
    }
    assert(lower(dotted_name(labels)) =~= dotted_name(lowered(labels)));
}

/// Labels on the wire begin with the first label.
proof fn lemma_wire_labels_first(labels: Seq<Seq<char>>)
    requires
        labels.len() > 0,
    ensures
        wire_labels(labels) == wire_label(labels[0]) + wire_labels(labels.skip(1)),
    decreases labels.len(),
{
    if labels.len() == 1 {
        assert(labels.drop_last() =~= Seq::empty());
        assert(labels.skip(1) =~= Seq::empty());
        assert(wire_labels(labels) =~= wire_label(labels[0]) + wire_labels(labels.skip(1)));
    } else {
        lemma_wire_labels_first(labels.drop_last());
        assert(labels.drop_last().skip(1) =~= labels.skip(1).drop_last());
        assert(labels.skip(1).last() == labels.last());
        assert(wire_labels(labels) =~= wire_label(labels[0]) + wire_labels(labels.skip(1)));
    }
}

/// Labels read back from the wire, in lower case.
proof fn lemma_labels_read_back(
    labels: Seq<Seq<char>>,
    before: Seq<u8>,
    behind: Seq<u8>,
    steps: nat,
)
    requires
        forall|i: int| 0 <= i < labels.len() ==> plain_label(#[trigger] labels[i]),
        steps > labels.len(),
    ensures
        ({
            let packet = before + wire_labels(labels).push(0) + behind;
            let at = before.len() as int;
            &&& labels_at(packet, at, steps) == Some(lowered(labels))
            &&& name_end(packet, at, steps) == at + wire_labels(labels).len() + 1
        }),
    decreases labels.len(),
{
    let packet = before + wire_labels(labels).push(0) + behind;
    let at = before.len() as int;
    if labels.len() == 0 {
        assert(packet[at] == 0);
        assert(lowered(labels) =~= Seq::empty());
    } else {
        let l = labels[0];
        let rest = labels.skip(1);
        let b = encode_utf8(l);
        assert(plain_label(l));
        lemma_wire_labels_first(labels);
        let head = before + wire_label(l);
        assert(wire_label(l) =~= seq![b.len() as u8] + b);
        assert(packet =~= head + wire_labels(rest).push(0) + behind);
        assert forall|i: int| 0 <= i < rest.len() implies plain_label(#[trigger] rest[i]) by {
            assert(rest[i] == labels[i + 1]);
        }
        lemma_labels_read_back(rest, head, behind, (steps - 1) as nat);
        assert(packet[at] == b.len() as u8);
        assert(packet.subrange(at + 1, at + 1 + b.len()) =~= b);
        vstd::utf8::encode_utf8_valid_utf8(l);
        vstd::utf8::encode_utf8_decode_utf8(l);
        assert(head.len() == at + 1 + b.len());
        assert(seq![lower(l)] + lowered(rest) =~= lowered(labels));
    }
}

/// Joining texts without the separator and cutting at it gives the texts.
proof fn lemma_split_joined(labels: Seq<Seq<char>>)
    requires
        labels.len() > 0,
        forall|i: int| 0 <= i < labels.len() ==> !(#[trigger] labels[i]).contains('.'),
    ensures
        split(joined(labels, "."@), '.') == labels,
    decreases labels.len(),
{
    reveal_strlit(".");
    let front = labels.drop_last();
    let last = labels.last();
    assert(!labels[labels.len() - 1].contains('.'));
    if labels.len() == 1 {
        lemma_split_behind(Seq::empty(), last);
        assert(Seq::<char>::empty() + last =~= last);
        let p = split(Seq::<char>::empty(), '.');
        assert(p =~= seq![Seq::<char>::empty()]);
        assert(p.drop_last().push(p.last() + last) =~= labels);
    } else {
        assert forall|i: int| 0 <= i < front.len() implies !(#[trigger] front[i]).contains('.') by {
            assert(front[i] == labels[i]);
        }
        lemma_split_joined(front);
        let start = joined(front, "."@) + "."@;
        assert(start =~= joined(front, "."@).push('.'));
        assert(start.drop_last() =~= joined(front, "."@));
        assert(split(start, '.') == front.push(Seq::empty()));
        lemma_split_behind(start, last);
        let p = front.push(Seq::<char>::empty());
        assert(p.drop_last() =~= front);
        assert(p.last() + last =~= last);
        assert(front.push(last) =~= labels);
    }
}

/// A text without a dot extends the last piece of what stands before it.
proof fn lemma_split_behind(start: Seq<char>, tail: Seq<char>)
    requires
        !tail.contains('.'),
    ensures
        split(start + tail, '.') == split(start, '.').drop_last().push(
            split(start, '.').last() + tail,
        ),
    decreases tail.len(),
{
    crate::text::lemma_pieces_nonempty(start, crate::text::only('.'));
    let p = split(start, '.');
    if tail.len() == 0 {
        assert(start + tail =~= start);
        assert(p.last() + tail =~= p.last());
        assert(p.drop_last().push(p.last()) =~= p);
    } else {
        let t = tail.drop_last();
        assert(!t.contains('.')) by {
            if t.contains('.') {
                let i = choose|i: int| 0 <= i < t.len() && t[i] == '.';
                assert(tail[i] == '.');
            }
        }
        lemma_split_behind(start, t);
        assert((start + tail).drop_last() =~= start + t);
        assert((start + tail).last() == tail.last());
        assert(tail.last() != '.') by {
            assert(tail[tail.len() - 1] == tail.last());
        }
        let q = p.drop_last().push(p.last() + t);
        assert(q.drop_last() =~= p.drop_last());
        assert((p.last() + t).push(tail.last()) =~= p.last() + tail);
    }
}

/// The wire form of a name is that of its labels.
proof fn lemma_wire_name(labels: Seq<Seq<char>>)
    requires
        plain_labels(labels),
    ensures
        wire_name(dotted_name(labels)) == wire_labels(labels).push(0),
{
    let bare = joined(labels, "."@);
    let name = dotted_name(labels);
    let last = labels[labels.len() - 1];
    assert(plain_label(last));
    assert(last.len() > 0) by {
        if last.len() == 0 {
            assert(last =~= Seq::empty());
            assert(encode_utf8(Seq::<char>::empty()).len() == 0) by {
                reveal_with_fuel(encode_utf8, 2);
            }
        }
    }
    assert(bare.len() > 0 && bare.last() == last.last());
    assert(last.last() != '.') by {
        assert(last[last.len() - 1] == last.last());
    }
    assert(name.drop_last() =~= bare);
    assert(strip_end(name, '.') == strip_end(bare, '.'));
    assert(strip_end(bare, '.') == bare);
    assert forall|i: int| 0 <= i < labels.len() implies !(#[trigger] labels[i]).contains('.') by {
        assert(plain_label(labels[i]));
    }
    lemma_split_joined(labels);
}

/// A name written for the wire is read back in lower case wherever it stands in
/// a packet, and reading stops right behind it.
pub proof fn name_reads_back(labels: Seq<Seq<char>>, before: Seq<u8>, behind: Seq<u8>)
    requires
        plain_labels(labels),
    ensures
        ({
            let name = dotted_name(labels);
            let packet = before + wire_name(name) + behind;
            &&& name_at(packet, before.len() as int) == Some(lower(name))
            &&& name_end(packet, before.len() as int, MAX_STEPS as nat) == before.len()
                + wire_name(name).len()
        }),
{
    lemma_wire_name(labels);
    lemma_lower_dotted(labels);
    lemma_labels_read_back(labels, before, behind, MAX_STEPS as nat);
}

/// A compression pointer stands for the labels at the place that it names, and
/// the name ends behind it in the packet.
pub proof fn pointers_are_followed(packet: Seq<u8>, at: int, steps: nat)
    requires
        0 <= at && at + 1 < packet.len(),
        packet[at] >= 0xc0,
        steps > 0,
    ensures
        labels_at(packet, at, steps) == labels_at(
            packet,
            (packet[at] - 0xc0) * 256 + packet[at + 1],
            (steps - 1) as nat,
        ),
        name_end(packet, at, steps) == at + 2,
{
}

/// A pointer to itself names nothing, however long it is followed.
pub proof fn pointer_loops_name_nothing(packet: Seq<u8>, at: int, steps: nat)
    requires
        0 <= at && at + 1 < packet.len(),
        packet[at] >= 0xc0,
        (packet[at] - 0xc0) * 256 + packet[at + 1] == at,
    ensures
        labels_at(packet, at, steps) is None,
    decreases steps,
{
    if steps > 0 {
        pointer_loops_name_nothing(packet, at, (steps - 1) as nat);
    }
}

/// A label on the wire tells its own length, which is at most 63.
pub proof fn labels_tell_their_length(label: Seq<char>)
    ensures
        wire_label(label).len() == wire_label(label)[0] + 1,
        wire_label(label)[0] <= 63,
        encode_utf8(label).len() <= 63 ==> wire_label(label).skip(1) == encode_utf8(label),
        encode_utf8(label).len() > 63 ==> wire_label(label).skip(1) == encode_utf8(label).take(63),
{
    let b = encode_utf8(label);
    if b.len() <= 63 {
        assert(wire_label(label).skip(1) =~= b);
    } else {
        assert(wire_label(label).skip(1) =~= b.take(63));
    }
}

} // verus!
