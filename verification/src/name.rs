//! Domain names: runs of length-prefixed labels, closed by a zero byte or by a
//! compression pointer to where the rest of the name stands in the message.
//!
//! A decoded name is always stored expanded: the labels with their length
//! bytes, then a single zero byte, and no pointer.

use crate::error::Error;
use vstd::prelude::*;
use vstd::set_lib::{lemma_int_range, lemma_len_subset, set_int_range};

verus! {

/// Longest label a name can hold.
pub const MAX_LABEL_LEN: u8 = 63;

/// The offset that a two-byte compression pointer names: the low six bits of
/// its first byte, then its second byte. It counts from the first byte of the
/// whole message.
pub open spec fn pointer_target(first: u8, second: u8) -> int {
    (first as int - 0xC0) * 256 + second as int
}

/// `rest` with `front` put before it, where there is a `rest`.
pub open spec fn prepend(front: Seq<u8>, rest: Option<Seq<u8>>) -> Option<Seq<u8>> {
    match rest {
        Some(tail) => Some(front + tail),
        None => None,
    }
}

/// The expanded name that starts at `pos` in `msg`, following at most `jumps`
/// compression pointers; `None` where the bytes are no name.
///
/// A zero byte ends the name. A byte from 1 to 63 is the length of a label,
/// which is kept together with that byte. A byte with both top bits set opens
/// a pointer: the name goes on at the pointer's target and nothing after the
/// pointer belongs to it. Every other byte, and every read past the end of
/// `msg`, makes the bytes no name.
pub open spec fn expand(msg: Seq<u8>, pos: int, jumps: nat) -> Option<Seq<u8>>
    decreases jumps, msg.len() - pos,
{
    if pos < 0 || pos >= msg.len() {
        None
    } else if msg[pos] == 0 {
        Some(seq![0u8])
    } else if msg[pos] <= 63 {
        let next = pos + 1 + msg[pos];
        if next > msg.len() {
            None
        } else {
            prepend(msg.subrange(pos, next), expand(msg, next, jumps))
        }
    } else if msg[pos] >= 0xC0 {
        if pos + 1 >= msg.len() || jumps == 0 {
            None
        } else {
            expand(msg, pointer_target(msg[pos], msg[pos + 1]), (jumps - 1) as nat)
        }
    } else {
        None
    }
}

/// The expanded name that starts at `pos` in `msg`. It may follow as many
/// pointers as the message has bytes: a chain longer than that visits some
/// offset twice and would never end.
pub open spec fn name_at(msg: Seq<u8>, pos: int) -> Option<Seq<u8>> {
    expand(msg, pos, msg.len())
}

/// The number of bytes that the name at `pos` occupies at that place: its
/// labels with their length bytes, then one byte for a closing zero or two for
/// a closing pointer. The bytes at a pointer's target are not counted. It is 0
/// where the bytes at that place do not have the shape of a name.
pub open spec fn name_span(msg: Seq<u8>, pos: int) -> int
    decreases msg.len() - pos,
{
    if pos < 0 || pos >= msg.len() {
        0
    } else if msg[pos] == 0 {
        1
    } else if msg[pos] <= 63 {
        let next = pos + 1 + msg[pos];
        if next > msg.len() || name_span(msg, next) == 0 {
            0
        } else {
            1 + msg[pos] + name_span(msg, next)
        }
    } else if msg[pos] >= 0xC0 && pos + 1 < msg.len() {
        2
    } else {
        0
    }
}

/// The offset of the pointer that closes the name at `pos`: the first byte
/// behind its labels, where that byte opens a pointer whose two bytes lie in
/// the message. `None` where the name at `pos` is closed otherwise or its
/// labels do not fit the message.
pub open spec fn closing_pointer(msg: Seq<u8>, pos: int) -> Option<int>
    decreases msg.len() - pos,
{
    if pos < 0 || pos >= msg.len() {
        None
    } else if 1 <= msg[pos] <= 63 {
        let next = pos + 1 + msg[pos];
        if next > msg.len() {
            None
        } else {
            closing_pointer(msg, next)
        }
    } else if msg[pos] >= 0xC0 && pos + 1 < msg.len() {
        Some(pos)
    } else {
        None
    }
}

/// `name` is an expanded name: labels of 1 to 63 bytes, each behind its length
/// byte, then a single zero byte.
pub open spec fn is_name(name: Seq<u8>) -> bool
    decreases name.len(),
{
    if name.len() == 0 {
        false
    } else if name[0] == 0 {
        name.len() == 1
    } else if name[0] <= 63 {
        1 + name[0] < name.len() && is_name(name.skip(1 + name[0]))
    } else {
        false
    }
}

/// Every label is between 1 and 63 bytes long.
pub open spec fn valid_labels(labels: Seq<Seq<u8>>) -> bool {
    forall|i: int| 0 <= i < labels.len() ==> 1 <= (#[trigger] labels[i]).len() <= 63
}

/// The expanded name made of `labels`, in order.
pub open spec fn name_of_labels(labels: Seq<Seq<u8>>) -> Seq<u8>
    decreases labels.len(),
{
    if labels.len() == 0 {
        seq![0u8]
    } else {
        seq![labels[0].len() as u8] + labels[0] + name_of_labels(labels.skip(1))
    }
}

/// The name made of valid labels is an expanded name.
pub proof fn lemma_labels_make_a_name(labels: Seq<Seq<u8>>)
    requires
        valid_labels(labels),
    ensures
        is_name(name_of_labels(labels)),
    decreases labels.len(),
{
    if labels.len() > 0 {
        let rest = labels.skip(1);
        assert forall|i: int| 0 <= i < rest.len() implies 1 <= (#[trigger] rest[i]).len() <= 63 by {
            assert(rest[i] == labels[i + 1]);
        }
        lemma_labels_make_a_name(rest);
        let name = name_of_labels(labels);
        assert(name[0] == labels[0].len() as u8);
        assert(name.skip(1 + name[0]) =~= name_of_labels(rest));
    }
}

/// Whatever a decode returns is an expanded name.
pub proof fn lemma_expand_gives_a_name(msg: Seq<u8>, pos: int, jumps: nat)
    ensures
        expand(msg, pos, jumps) matches Some(name) ==> is_name(name),
    decreases jumps, msg.len() - pos,
{
    if 0 <= pos < msg.len() {
        if 1 <= msg[pos] <= 63 {
            let next = pos + 1 + msg[pos];
            if next <= msg.len() {
                lemma_expand_gives_a_name(msg, next, jumps);
                if let Some(rest) = expand(msg, next, jumps) {
                    let name = msg.subrange(pos, next) + rest;
                    assert(name[0] == msg[pos]);
                    assert(name.skip(1 + name[0]) =~= rest);
                }
            }
        } else if msg[pos] >= 0xC0 {
            if pos + 1 < msg.len() && jumps > 0 {
                lemma_expand_gives_a_name(
                    msg,
                    pointer_target(msg[pos], msg[pos + 1]),
                    (jumps - 1) as nat,
                );
            }
        }
    }
}

/// A name that decodes within some number of pointer jumps decodes to the same
/// bytes when more jumps are allowed.
pub proof fn lemma_expand_more_jumps(msg: Seq<u8>, pos: int, jumps: nat, more: nat)
    requires
        jumps <= more,
        expand(msg, pos, jumps) is Some,
    ensures
        expand(msg, pos, more) == expand(msg, pos, jumps),
    decreases jumps, msg.len() - pos,
{
    if 0 <= pos < msg.len() {
        if 1 <= msg[pos] <= 63 {
            let next = pos + 1 + msg[pos];
            if next <= msg.len() {
                lemma_expand_more_jumps(msg, next, jumps, more);
            }
        } else if msg[pos] >= 0xC0 {
            if pos + 1 < msg.len() && jumps > 0 {
                lemma_expand_more_jumps(
                    msg,
                    pointer_target(msg[pos], msg[pos + 1]),
                    (jumps - 1) as nat,
                    (more - 1) as nat,
                );
            }
        }
    }
}

/// An expanded name that stands in a message, whatever is before and after
/// it, decodes to itself, and its span is its own length.
pub proof fn lemma_name_round_trip(before: Seq<u8>, name: Seq<u8>, after: Seq<u8>, jumps: nat)
    requires
        is_name(name),
    ensures
        expand(before + name + after, before.len() as int, jumps) == Some(name),
        name_span(before + name + after, before.len() as int) == name.len(),
    decreases name.len(),
{
    let msg = before + name + after;
    let pos = before.len() as int;
    assert(msg[pos] == name[0]);
    if name[0] == 0 {
        assert(name =~= seq![0u8]);
    } else {
        let next = pos + 1 + name[0];
        let label = name.take(1 + name[0]);
        let rest = name.skip(1 + name[0]);
        assert((before + label) + rest + after =~= msg);
        lemma_name_round_trip(before + label, rest, after, jumps);
        assert(msg.subrange(pos, next) =~= label);
        assert(label + rest =~= name);
    }
}

/// A name written without compression decodes to itself, and decoding reads
/// all of it: for every sequence of labels of 1 to 63 bytes each.
pub proof fn lemma_labels_round_trip(labels: Seq<Seq<u8>>)
    requires
        valid_labels(labels),
    ensures
        name_at(name_of_labels(labels), 0) == Some(name_of_labels(labels)),
        name_span(name_of_labels(labels), 0) == name_of_labels(labels).len(),
{
    let name = name_of_labels(labels);
    lemma_labels_make_a_name(labels);
    lemma_name_round_trip(Seq::empty(), name, Seq::empty(), name.len());
    assert(Seq::<u8>::empty() + name + Seq::<u8>::empty() =~= name);
}

/// The number of pointers that decoding follows from `pos` on when it may
/// follow `jumps` of them.
spec fn jumps_taken(msg: Seq<u8>, pos: int, jumps: nat) -> nat
    decreases jumps, msg.len() - pos,
{
    if pos < 0 || pos >= msg.len() {
        0
    } else if 1 <= msg[pos] <= 63 {
        let next = pos + 1 + msg[pos];
        if next > msg.len() {
            0
        } else {
            jumps_taken(msg, next, jumps)
        }
    } else if msg[pos] >= 0xC0 {
        if pos + 1 >= msg.len() || jumps == 0 {
            0
        } else {
            1 + jumps_taken(msg, pointer_target(msg[pos], msg[pos + 1]), (jumps - 1) as nat)
        }
    } else {
        0
    }
}

/// The offsets from which a name decodes within `jumps` pointer jumps.
spec fn decodable(msg: Seq<u8>, jumps: nat) -> Set<int> {
    Set::new(|pos: int| 0 <= pos < msg.len() && expand(msg, pos, jumps) is Some)
}

/// A name that decodes does so with exactly as many jumps as it takes, and
/// with no fewer.
proof fn lemma_jumps_taken_are_needed(msg: Seq<u8>, pos: int, jumps: nat)
    requires
        expand(msg, pos, jumps) is Some,
    ensures
        jumps_taken(msg, pos, jumps) <= jumps,
        expand(msg, pos, jumps_taken(msg, pos, jumps)) == expand(msg, pos, jumps),
        jumps_taken(msg, pos, jumps) > 0 ==> expand(
            msg,
            pos,
            (jumps_taken(msg, pos, jumps) - 1) as nat,
        ) is None,
    decreases jumps, msg.len() - pos,
{
    if 1 <= msg[pos] <= 63 {
        lemma_jumps_taken_are_needed(msg, pos + 1 + msg[pos], jumps);
    } else if msg[pos] >= 0xC0 {
        lemma_jumps_taken_are_needed(
            msg,
            pointer_target(msg[pos], msg[pos + 1]),
            (jumps - 1) as nat,
        );
    }
}

/// Where some name needs exactly `jumps` pointer jumps, names decode within
/// `jumps` jumps from more than `jumps` offsets: the chain of that name passes
/// an offset for each smaller number of jumps.
proof fn lemma_jumps_need_offsets(msg: Seq<u8>, pos: int, jumps: nat)
    requires
        expand(msg, pos, jumps) is Some,
        jumps > 0 ==> expand(msg, pos, (jumps - 1) as nat) is None,
    ensures
        decodable(msg, jumps).finite(),
        decodable(msg, jumps).len() > jumps,
    decreases jumps, msg.len() - pos,
{
    lemma_int_range(0, msg.len() as int);
    lemma_len_subset(decodable(msg, jumps), set_int_range(0, msg.len() as int));
    if msg[pos] == 0 {
        assert(decodable(msg, jumps).contains(pos));
    } else if msg[pos] <= 63 {
        lemma_jumps_need_offsets(msg, pos + 1 + msg[pos], jumps);
    } else {
        let target = pointer_target(msg[pos], msg[pos + 1]);
        let fewer = (jumps - 1) as nat;
        lemma_jumps_need_offsets(msg, target, fewer);
        let reached = decodable(msg, fewer).insert(pos);
        assert(reached.subset_of(decodable(msg, jumps))) by {
            assert forall|at: int| reached.contains(at) implies decodable(msg, jumps).contains(
                at,
            ) by {
                if at != pos {
                    lemma_expand_more_jumps(msg, at, fewer, jumps);
                }
            }
        }
        lemma_len_subset(reached, decodable(msg, jumps));
    }
}

/// The limit on pointer jumps rejects no name whose chain of pointers ends:
/// a name that decodes within any number of jumps decodes to the same bytes
/// within as many jumps as the message has bytes, and needs fewer.
pub proof fn lemma_jump_limit_is_enough(msg: Seq<u8>, pos: int, jumps: nat)
    requires
        expand(msg, pos, jumps) is Some,
    ensures
        name_at(msg, pos) == expand(msg, pos, jumps),
        msg.len() > 0,
        expand(msg, pos, (msg.len() - 1) as nat) == expand(msg, pos, jumps),
{
    let taken = jumps_taken(msg, pos, jumps);
    lemma_jumps_taken_are_needed(msg, pos, jumps);
    lemma_jumps_need_offsets(msg, pos, taken);
    lemma_int_range(0, msg.len() as int);
    lemma_len_subset(decodable(msg, taken), set_int_range(0, msg.len() as int));
    lemma_expand_more_jumps(msg, pos, taken, msg.len());
    lemma_expand_more_jumps(msg, pos, taken, (msg.len() - 1) as nat);
}

/// A name that consists of a pointer alone expands to exactly what the name
/// at the pointer's target expands to, and fails to decode where that one
/// fails; it occupies two bytes, whatever stands at the target.
pub proof fn lemma_pointer_expands_to_target(msg: Seq<u8>, pos: int)
    requires
        0 <= pos,
        pos + 1 < msg.len(),
        msg[pos] >= 0xC0,
    ensures
        name_at(msg, pos) == name_at(msg, pointer_target(msg[pos], msg[pos + 1])),
        name_span(msg, pos) == 2,
{
    let target = pointer_target(msg[pos], msg[pos + 1]);
    let fewer = (msg.len() - 1) as nat;
    if name_at(msg, target) is Some {
        lemma_jump_limit_is_enough(msg, target, msg.len());
    } else if expand(msg, target, fewer) is Some {
        lemma_expand_more_jumps(msg, target, fewer, msg.len());
    }
}

/// A name that ends in a pointer expands to its own labels followed by the
/// expansion of the name at the pointer's target, exactly as decoding the
/// target directly gives it, and fails to decode where the target fails. It
/// occupies its own labels and the two bytes of the pointer, and nothing of
/// what stands at the target.
pub proof fn lemma_name_closed_by_pointer(msg: Seq<u8>, pos: int)
    requires
        closing_pointer(msg, pos) is Some,
    ensures
        ({
            let at = closing_pointer(msg, pos).unwrap();
            let target = pointer_target(msg[at], msg[at + 1]);
            &&& 0 <= pos <= at
            &&& at + 1 < msg.len()
            &&& name_at(msg, pos) == prepend(msg.subrange(pos, at), name_at(msg, target))
            &&& name_span(msg, pos) == (at - pos) + 2
        }),
    decreases msg.len() - pos,
{
    let at = closing_pointer(msg, pos).unwrap();
    let target = pointer_target(msg[at], msg[at + 1]);
    if msg[pos] >= 0xC0 {
        lemma_pointer_expands_to_target(msg, pos);
        if let Some(name) = name_at(msg, target) {
            assert(msg.subrange(pos, pos) + name =~= name);
        }
    } else {
        let next = pos + 1 + msg[pos];
        lemma_name_closed_by_pointer(msg, next);
        if let Some(name) = name_at(msg, target) {
            assert(msg.subrange(pos, next) + (msg.subrange(next, at) + name) =~= msg.subrange(
                pos,
                at,
            ) + name);
        }
    }
}

/// A span is never negative and never reaches past the end of the message,
/// and a name that decodes has a span of at least one byte.
pub proof fn lemma_span_within(msg: Seq<u8>, pos: int, jumps: nat)
    ensures
        0 <= name_span(msg, pos),
        name_span(msg, pos) > 0 ==> 0 <= pos && pos + name_span(msg, pos) <= msg.len(),
        expand(msg, pos, jumps) is Some ==> name_span(msg, pos) > 0,
    decreases msg.len() - pos,
{
    if 0 <= pos < msg.len() && 1 <= msg[pos] <= 63 {
        let next = pos + 1 + msg[pos];
        if next <= msg.len() {
            lemma_span_within(msg, next, jumps);
        }
    }
}

/// The span of a name is decided by the bytes that it covers: two messages
/// that agree on those bytes give the name at that place the same span, so
/// what stands at a pointer's target never counts.
pub proof fn lemma_span_reads_inline_bytes_only(first: Seq<u8>, second: Seq<u8>, pos: int)
    requires
        name_span(first, pos) > 0,
        pos + name_span(first, pos) <= second.len(),
        first.subrange(pos, pos + name_span(first, pos)) == second.subrange(
            pos,
            pos + name_span(first, pos),
        ),
    ensures
        name_span(second, pos) == name_span(first, pos),
    decreases first.len() - pos,
{
    let span = name_span(first, pos);
    lemma_span_within(first, pos, 0);
    let covered = first.subrange(pos, pos + span);
    let also_covered = second.subrange(pos, pos + span);
    assert(first[pos] == covered[0]);
    assert(second[pos] == also_covered[0]);
    if 1 <= first[pos] <= 63 {
        let next = pos + 1 + first[pos];
        let rest = name_span(first, next);
        lemma_span_within(first, next, 0);
        assert(span == 1 + first[pos] + rest);
        assert(first.subrange(next, next + rest) =~= covered.subrange(next - pos, span));
        assert(second.subrange(next, next + rest) =~= also_covered.subrange(next - pos, span));
        lemma_span_reads_inline_bytes_only(first, second, next);
    }
}

/// Whether `byte` opens a compression pointer: its two top bits are both set.
pub fn is_valid_compression_pointer(byte: u8) -> (valid: bool)
    ensures
        valid == (byte >= 0xC0),
{
    assert(((byte >> 6) & 0b0000_0011 == 0b0000_0011) == (byte >= 0xC0)) by (bit_vector);
    (byte >> 6) & 0b0000_0011 == 0b0000_0011
}

/// Decodes the name that starts at `l_index` in the message `data`, following
/// compression pointers, which count from the first byte of `data`.
///
/// Returns the expanded name and the number of bytes that the name occupies
/// at `l_index`. Fails with `InvalidQuestion` where the bytes are no name.
pub fn parse_labels(data: &[u8], l_index: usize) -> (parsed: Result<(Vec<u8>, usize), Error>)
    ensures
        match parsed {
            Ok((labels, used)) => {
                &&& name_at(data@, l_index as int) == Some(labels@)
                &&& used == name_span(data@, l_index as int)
                &&& is_name(labels@)
            },
            Err(error) => error == Error::InvalidQuestion && name_at(data@, l_index as int) is None,
        },
{
    let mut labels: Vec<u8> = Vec::new();
    let mut index: usize = l_index;
    let mut jumps_left: usize = data.len();
    let mut used: Option<usize> = None;
    proof {
        if let Some(name) = name_at(data@, l_index as int) {
            assert(Seq::<u8>::empty() + name =~= name);
        }
        lemma_expand_gives_a_name(data@, l_index as int, data@.len());
        lemma_span_within(data@, l_index as int, 0);
    }
    loop
        invariant
            jumps_left <= data@.len(),
            name_at(data@, l_index as int) == prepend(
                labels@,
                expand(data@, index as int, jumps_left as nat),
            ),
            name_at(data@, l_index as int) matches Some(name) ==> is_name(name),
            match used {
                Some(span) => span == name_span(data@, l_index as int),
                None => {
                    &&& l_index <= index
                    &&& name_span(data@, l_index as int) == if name_span(data@, index as int) > 0 {
                        (index - l_index) + name_span(data@, index as int)
                    } else {
                        0
                    }
                },
            },
        decreases jumps_left, data@.len() - index,
    {
        if index >= data.len() {
            return Err(Error::InvalidQuestion);
        }
        let byte: u8 = data[index];
        if byte == 0 {
            let ghost before = labels@;
            labels.push(0);
            assert(labels@ =~= before + seq![0u8]);
            let span: usize = match used {
                Some(span) => span,
                None => index + 1 - l_index,
            };
            return Ok((labels, span));
        } else if byte <= MAX_LABEL_LEN {
            let width: usize = byte as usize + 1;
            if width > data.len() - index {
                return Err(Error::InvalidQuestion);
            }
            let ghost before = labels@;
            labels.extend_from_slice(&data[index..index + width]);
            proof {
                let label = data@.subrange(index as int, index + width);
                lemma_span_within(data@, index + width, 0);
                assert(labels@ =~= before + label);
                let rest = expand(data@, index + width, jumps_left as nat);
                if let Some(tail) = rest {
                    assert(before + (label + tail) =~= (before + label) + tail);
                }
            }
            index = index + width;
        } else if is_valid_compression_pointer(byte) {
            if data.len() - index < 2 || jumps_left == 0 {
                return Err(Error::InvalidQuestion);
            }
            let low: u8 = byte & 0x3f;
            assert(low == byte - 0xC0) by (bit_vector)
                requires
                    low == byte & 0x3f,
                    byte >= 0xC0,
            ;
            let target: usize = (low as usize) * 256 + data[index + 1] as usize;
            if used.is_none() {
                used = Some(index + 2 - l_index);
            }
            jumps_left = jumps_left - 1;
            index = target;
        } else {
            return Err(Error::InvalidQuestion);
        }
    }
}

} // verus!
