//! The token grammar: which bytes separate tokens, and which tokens a byte
//! sequence holds.
//!
//! A token is a maximal run of bytes that holds no delimiter. Runs of
//! delimiters collapse, so no token is empty.
use vstd::prelude::*;

verus! {

/// The longest token that is accepted, in bytes.
pub const MAX_TOKEN_LEN: usize = 100;

/// Space, comma, line feed and carriage return separate tokens.
pub open spec fn spec_is_delimiter(byte: u8) -> bool {
    byte == 0x20 || byte == 0x2c || byte == 0x0a || byte == 0x0d
}

/// Whether `byte` separates tokens.
#[verifier::when_used_as_spec(spec_is_delimiter)]
pub fn is_delimiter(byte: u8) -> (r: bool)
    ensures
        r == spec_is_delimiter(byte),
{
    byte == 0x20 || byte == 0x2c || byte == 0x0a || byte == 0x0d
}

/// The run of non-delimiter bytes that `bytes` ends with: the token that is
/// still open after `bytes`. Empty where `bytes` is empty or ends with a
/// delimiter.
pub open spec fn open_run(bytes: Seq<u8>) -> Seq<u8>
    decreases bytes.len(),
{
    if bytes.len() == 0 || is_delimiter(bytes.last()) {
        Seq::empty()
    } else {
        open_run(bytes.drop_last()).push(bytes.last())
    }
}

/// The tokens of `bytes` that a delimiter has closed, in order.
pub open spec fn closed_tokens(bytes: Seq<u8>) -> Seq<Seq<u8>>
    decreases bytes.len(),
{
    if bytes.len() == 0 {
        Seq::empty()
    } else {
        let before = bytes.drop_last();
        if is_delimiter(bytes.last()) && open_run(before).len() > 0 {
            closed_tokens(before).push(open_run(before))
        } else {
            closed_tokens(before)
        }
    }
}

/// The tokens of `bytes`, in order: those that a delimiter has closed, and
/// the run that the end of `bytes` closes, if there is one.
pub open spec fn tokens(bytes: Seq<u8>) -> Seq<Seq<u8>> {
    if open_run(bytes).len() > 0 {
        closed_tokens(bytes).push(open_run(bytes))
    } else {
        closed_tokens(bytes)
    }
}

/// What one more byte does to the open run and to the closed tokens.
pub proof fn lemma_push_byte(bytes: Seq<u8>, byte: u8)
    ensures
        is_delimiter(byte) ==> open_run(bytes.push(byte)) == Seq::<u8>::empty(),
        !is_delimiter(byte) ==> open_run(bytes.push(byte)) == open_run(bytes).push(byte),
        is_delimiter(byte) && open_run(bytes).len() > 0 ==> closed_tokens(bytes.push(byte))
            == closed_tokens(bytes).push(open_run(bytes)),
        !(is_delimiter(byte) && open_run(bytes).len() > 0) ==> closed_tokens(bytes.push(byte))
            == closed_tokens(bytes),
{
    assert(bytes.push(byte).drop_last() =~= bytes);
    assert(bytes.push(byte).last() == byte);
}

/// Input that follows `seen` changes nothing that `seen` has settled: the
/// tokens closed within `seen` stay as they are, and a run that `seen` leaves
/// open can only grow into the token that comes next.
pub proof fn lemma_extend(seen: Seq<u8>, rest: Seq<u8>)
    ensures
        closed_tokens(seen).len() <= closed_tokens(seen + rest).len(),
        forall|k: int|
            0 <= k < closed_tokens(seen).len() ==> #[trigger] closed_tokens(seen + rest)[k]
                == closed_tokens(seen)[k],
        open_run(seen).len() > 0 && closed_tokens(seen + rest).len() == closed_tokens(seen).len()
            ==> open_run(seen + rest).len() >= open_run(seen).len(),
        open_run(seen).len() > 0 && closed_tokens(seen + rest).len() > closed_tokens(seen).len()
            ==> closed_tokens(seen + rest)[closed_tokens(seen).len() as int].len() >= open_run(
            seen,
        ).len(),
    decreases rest.len(),
{
    if rest.len() == 0 {
        assert(seen + rest =~= seen);
    } else {
        let early = seen + rest.drop_last();
        lemma_extend(seen, rest.drop_last());
        lemma_push_byte(early, rest.last());
        assert(seen + rest =~= early.push(rest.last()));
    }
}

/// Every token is a run of at least one byte, none of them a delimiter.
pub proof fn lemma_tokens_are_runs(bytes: Seq<u8>)
    ensures
        forall|i: int| 0 <= i < open_run(bytes).len() ==> !is_delimiter(#[trigger] open_run(bytes)[i]),
        forall|k: int|
            0 <= k < tokens(bytes).len() ==> (#[trigger] tokens(bytes)[k]).len() > 0 && forall|i: int|
                0 <= i < tokens(bytes)[k].len() ==> !is_delimiter(#[trigger] tokens(bytes)[k][i]),
    decreases bytes.len(),
{
    if bytes.len() > 0 {
        let before = bytes.drop_last();
        lemma_tokens_are_runs(before);
        lemma_push_byte(before, bytes.last());
        assert(before.push(bytes.last()) =~= bytes);
        assert forall|k: int| 0 <= k < tokens(bytes).len() implies (#[trigger] tokens(bytes)[k]).len() > 0
            && forall|i: int|
            0 <= i < tokens(bytes)[k].len() ==> !is_delimiter(#[trigger] tokens(bytes)[k][i]) by {
            if k < closed_tokens(before).len() {
                assert(tokens(bytes)[k] == tokens(before)[k]);
            } else if is_delimiter(bytes.last()) {
                assert(tokens(bytes)[k] == open_run(before));
                assert(tokens(before)[k] == open_run(before));
            }
        }
    }
}

/// Bytes that are all delimiters hold no token.
pub proof fn lemma_only_delimiters(bytes: Seq<u8>)
    requires
        forall|i: int| 0 <= i < bytes.len() ==> is_delimiter(#[trigger] bytes[i]),
    ensures
        tokens(bytes) == Seq::<Seq<u8>>::empty(),
    decreases bytes.len(),
{
    if bytes.len() > 0 {
        let before = bytes.drop_last();
        lemma_only_delimiters(before);
        lemma_push_byte(before, bytes.last());
        assert(before.push(bytes.last()) =~= bytes);
    }
}

/// A run of bytes without a delimiter is one token, the whole of it, and no
/// delimiter has closed it.
pub proof fn lemma_single_run(run: Seq<u8>)
    requires
        run.len() > 0,
        forall|i: int| 0 <= i < run.len() ==> !is_delimiter(#[trigger] run[i]),
    ensures
        open_run(run) == run,
        closed_tokens(run) == Seq::<Seq<u8>>::empty(),
        tokens(run) == seq![run],
    decreases run.len(),
{
    let before = run.drop_last();
    lemma_push_byte(before, run.last());
    assert(before.push(run.last()) =~= run);
    if before.len() > 0 {
        lemma_single_run(before);
    }
    assert(open_run(run) =~= run);
    assert(tokens(run) =~= seq![run]);
}

/// A delimiter parts the tokens before it from the tokens after it: the
/// tokens of the whole are those of the first part, then those of the second.
/// So runs of delimiters collapse, and a delimiter at either end adds nothing.
pub proof fn lemma_delimiter_parts(first: Seq<u8>, delimiter: u8, second: Seq<u8>)
    requires
        is_delimiter(delimiter),
    ensures
        tokens(first.push(delimiter) + second) == tokens(first) + tokens(second),
        closed_tokens(first.push(delimiter) + second) == tokens(first) + closed_tokens(second),
        open_run(first.push(delimiter) + second) == open_run(second),
    decreases second.len(),
{
    let head = first.push(delimiter);
    if second.len() == 0 {
        lemma_push_byte(first, delimiter);
        assert(head + second =~= head);
        assert(tokens(first) + closed_tokens(second) =~= tokens(first));
        assert(tokens(first) + tokens(second) =~= tokens(first));
    } else {
        let before = second.drop_last();
        lemma_delimiter_parts(first, delimiter, before);
        lemma_push_byte(head + before, second.last());
        lemma_push_byte(before, second.last());
        assert((head + before).push(second.last()) =~= head + second);
        assert(before.push(second.last()) =~= second);
        assert(closed_tokens(head + second) =~= tokens(first) + closed_tokens(second));
        assert(tokens(head + second) =~= tokens(first) + tokens(second));
    }
}

/// A delimiter at the end changes no token: the end of the input closes the
/// last token as a delimiter would.
pub proof fn lemma_final_delimiter(bytes: Seq<u8>, delimiter: u8)
    requires
        is_delimiter(delimiter),
    ensures
        tokens(bytes.push(delimiter)) == tokens(bytes),
{
    lemma_push_byte(bytes, delimiter);
}

/// Whether the bytes from `start` up to `end` are a maximal run without a
/// delimiter: none of them is a delimiter, and on either side the run ends
/// at a delimiter or at the end of `bytes`.
pub open spec fn is_maximal_run(bytes: Seq<u8>, start: int, end: int) -> bool {
    &&& 0 <= start < end <= bytes.len()
    &&& forall|i: int| start <= i < end ==> !is_delimiter(#[trigger] bytes[i])
    &&& (start == 0 || is_delimiter(bytes[start - 1]))
    &&& (end == bytes.len() || is_delimiter(bytes[end]))
}

/// Whether `starts` are the places of the tokens of `bytes`: each token is
/// the maximal run that starts at its place, the places go up from token to
/// token with a delimiter between one token and the next, and no maximal run
/// is without a token.
pub open spec fn token_places(bytes: Seq<u8>, starts: Seq<int>) -> bool {
    let all = tokens(bytes);
    &&& starts.len() == all.len()
    &&& forall|k: int|
        #![trigger starts[k]]
        0 <= k < all.len() ==> is_maximal_run(bytes, starts[k], starts[k] + all[k].len()) && all[k]
            == bytes.subrange(starts[k], starts[k] + all[k].len())
    &&& forall|k: int, l: int|
        #![trigger starts[k], starts[l]]
        0 <= k < l < all.len() ==> starts[k] + all[k].len() < starts[l]
    &&& forall|start: int, end: int| #[trigger]
        is_maximal_run(bytes, start, end) ==> exists|k: int|
            0 <= k < all.len() && #[trigger] starts[k] == start && all[k].len() == end - start
}

/// The open run is the end of the bytes, from the last delimiter on.
pub proof fn lemma_open_run_is_suffix(bytes: Seq<u8>)
    ensures
        open_run(bytes).len() <= bytes.len(),
        open_run(bytes) == bytes.skip(bytes.len() - open_run(bytes).len()),
        forall|i: int|
            bytes.len() - open_run(bytes).len() <= i < bytes.len() ==> !is_delimiter(#[trigger] bytes[i]),
        open_run(bytes).len() < bytes.len() ==> is_delimiter(bytes[bytes.len() - open_run(bytes).len() - 1]),
    decreases bytes.len(),
{
    if bytes.len() > 0 {
        let before = bytes.drop_last();
        lemma_open_run_is_suffix(before);
        lemma_push_byte(before, bytes.last());
        assert(before.push(bytes.last()) =~= bytes);
        assert(open_run(bytes) =~= bytes.skip(bytes.len() - open_run(bytes).len()));
        assert forall|i: int| bytes.len() - open_run(bytes).len() <= i < bytes.len() implies !is_delimiter(
            #[trigger] bytes[i],
        ) by {
            if i < before.len() {
                assert(bytes[i] == before[i]);
            }
        }
        if open_run(bytes).len() < bytes.len() && !is_delimiter(bytes.last()) {
            assert(bytes[bytes.len() - open_run(bytes).len() - 1] == before[before.len() - open_run(
                before,
            ).len() - 1]);
        }
    } else {
        assert(open_run(bytes) =~= bytes.skip(0));
    }
}

/// What is known of the places of the tokens of `bytes` while the tokens are
/// followed byte by byte: besides being the places, they end before the end
/// of `bytes` for the closed tokens and at the end for the open run.
pub open spec fn places_so_far(bytes: Seq<u8>, starts: Seq<int>) -> bool {
    &&& token_places(bytes, starts)
    &&& forall|k: int|
        #![trigger starts[k]]
        0 <= k < closed_tokens(bytes).len() ==> starts[k] + tokens(bytes)[k].len() < bytes.len()
    &&& open_run(bytes).len() > 0 ==> starts.last() + open_run(bytes).len() == bytes.len()
}

/// The places of the tokens after one more byte: a byte that opens a run
/// adds the place where it stands.
pub open spec fn places_after(before: Seq<u8>, byte: u8, earlier: Seq<int>) -> Seq<int> {
    if !is_delimiter(byte) && open_run(before).len() == 0 {
        earlier.push(before.len() as int)
    } else {
        earlier
    }
}

/// After one more byte each token still stands at its place, the closed
/// tokens end before the end, and the open run ends at the end.
proof fn lemma_places_stand(before: Seq<u8>, byte: u8, earlier: Seq<int>)
    requires
        places_so_far(before, earlier),
    ensures
        ({
            let bytes = before.push(byte);
            let starts = places_after(before, byte, earlier);
            &&& starts.len() == tokens(bytes).len()
            &&& forall|k: int|
                #![trigger starts[k]]
                0 <= k < starts.len() ==> is_maximal_run(bytes, starts[k], starts[k] + tokens(bytes)[k].len())
                    && tokens(bytes)[k] == bytes.subrange(starts[k], starts[k] + tokens(bytes)[k].len())
            &&& forall|k: int|
                #![trigger starts[k]]
                0 <= k < closed_tokens(bytes).len() ==> starts[k] + tokens(bytes)[k].len() < bytes.len()
            &&& open_run(bytes).len() > 0 ==> starts.last() + open_run(bytes).len() == bytes.len()
        }),
{
    let bytes = before.push(byte);
    let starts = places_after(before, byte, earlier);
    lemma_push_byte(before, byte);
    lemma_open_run_is_suffix(before);
    lemma_open_run_is_suffix(bytes);
    let old_all = tokens(before);
    let all = tokens(bytes);
    assert forall|k: int| #![trigger starts[k]] 0 <= k < starts.len() implies is_maximal_run(
        bytes,
        starts[k],
        starts[k] + all[k].len(),
    ) && all[k] == bytes.subrange(starts[k], starts[k] + all[k].len()) by {
        if k < old_all.len() && (k < closed_tokens(before).len() || is_delimiter(byte)) {
            assert(all[k] == old_all[k]);
            let start = earlier[k];
            let end = start + old_all[k].len();
            assert(is_maximal_run(before, start, end));
            lemma_run_carries_over(before, byte, start, end);
            assert(bytes.subrange(start, end) =~= before.subrange(start, end));
        } else {
            assert(all[k] == open_run(bytes));
            assert(starts[k] == bytes.len() - open_run(bytes).len());
            assert(bytes.skip(starts[k]) =~= bytes.subrange(starts[k], bytes.len() as int));
        }
    }
    assert forall|k: int| #![trigger starts[k]] 0 <= k < closed_tokens(bytes).len() implies starts[k]
        + all[k].len() < bytes.len() by {
        assert(all[k] == old_all[k]);
        assert(is_maximal_run(before, earlier[k], earlier[k] + old_all[k].len()));
    }
}

/// A maximal run that ends before the last byte, or at a last byte that is a
/// delimiter, is a maximal run with or without that byte.
proof fn lemma_run_carries_over(before: Seq<u8>, byte: u8, start: int, end: int)
    requires
        0 <= start < end <= before.len(),
        end < before.len() || is_delimiter(byte),
    ensures
        is_maximal_run(before, start, end) == is_maximal_run(before.push(byte), start, end),
{
    let bytes = before.push(byte);
    if is_maximal_run(before, start, end) {
        assert forall|i: int| start <= i < end implies !is_delimiter(#[trigger] bytes[i]) by {
            assert(bytes[i] == before[i]);
        }
    }
    if is_maximal_run(bytes, start, end) {
        assert forall|i: int| start <= i < end implies !is_delimiter(#[trigger] before[i]) by {
            assert(bytes[i] == before[i]);
        }
    }
    if start > 0 {
        assert(bytes[start - 1] == before[start - 1]);
    }
    if end < before.len() {
        assert(bytes[end] == before[end]);
    }
}

/// After one more byte the places still go up, with a delimiter between two
/// tokens.
proof fn lemma_places_go_up(before: Seq<u8>, byte: u8, earlier: Seq<int>)
    requires
        places_so_far(before, earlier),
    ensures
        ({
            let bytes = before.push(byte);
            let starts = places_after(before, byte, earlier);
            forall|k: int, l: int|
                #![trigger starts[k], starts[l]]
                0 <= k < l < tokens(bytes).len() ==> starts[k] + tokens(bytes)[k].len() < starts[l]
        }),
{
    let bytes = before.push(byte);
    let starts = places_after(before, byte, earlier);
    lemma_push_byte(before, byte);
    let old_all = tokens(before);
    let all = tokens(bytes);
    assert forall|k: int, l: int|
        #![trigger starts[k], starts[l]]
        0 <= k < l < all.len() implies starts[k] + all[k].len() < starts[l] by {
        assert(k < closed_tokens(before).len());
        assert(all[k] == old_all[k]);
        if l < old_all.len() {
            assert(earlier[k] + old_all[k].len() < earlier[l]);
        } else {
            assert(earlier[k] + old_all[k].len() < before.len());
        }
    }
}

/// After one more byte every maximal run still has its token.
proof fn lemma_places_miss_none(before: Seq<u8>, byte: u8, earlier: Seq<int>, start: int, end: int)
    requires
        places_so_far(before, earlier),
        is_maximal_run(before.push(byte), start, end),
    ensures
        ({
            let bytes = before.push(byte);
            let starts = places_after(before, byte, earlier);
            exists|k: int|
                0 <= k < tokens(bytes).len() && #[trigger] starts[k] == start && tokens(bytes)[k].len() == end
                    - start
        }),
{
    let bytes = before.push(byte);
    let starts = places_after(before, byte, earlier);
    lemma_push_byte(before, byte);
    lemma_open_run_is_suffix(bytes);
    lemma_places_stand(before, byte, earlier);
    let old_all = tokens(before);
    let all = tokens(bytes);
    if end == bytes.len() {
        assert(!is_delimiter(bytes[end - 1]));
        let last = all.len() - 1;
        let place = bytes.len() - open_run(bytes).len();
        assert(starts[last] == place);
        if start < place {
            assert(is_delimiter(bytes[place - 1]));
        } else if start > place {
            assert(!is_delimiter(bytes[start - 1]));
        }
        assert(starts[last] == start && all[last].len() == end - start);
    } else {
        assert(is_delimiter(bytes[end]));
        lemma_run_carries_over(before, byte, start, end);
        assert(is_maximal_run(before, start, end));
        let k = choose|k: int|
            0 <= k < old_all.len() && #[trigger] earlier[k] == start && old_all[k].len() == end - start;
        if k >= closed_tokens(before).len() {
            assert(old_all[k] == open_run(before));
        }
        assert(all[k] == old_all[k]);
        assert(starts[k] == start && all[k].len() == end - start);
    }
}

/// The tokens are the maximal runs without a delimiter, in the order in
/// which they stand: the places that come back are theirs.
pub proof fn lemma_tokens_are_the_maximal_runs(bytes: Seq<u8>) -> (starts: Seq<int>)
    ensures
        places_so_far(bytes, starts),
    decreases bytes.len(),
{
    if bytes.len() == 0 {
        Seq::empty()
    } else {
        let before = bytes.drop_last();
        let byte = bytes.last();
        let earlier = lemma_tokens_are_the_maximal_runs(before);
        assert(before.push(byte) =~= bytes);
        lemma_places_stand(before, byte, earlier);
        lemma_places_go_up(before, byte, earlier);
        let starts = places_after(before, byte, earlier);
        assert forall|start: int, end: int| #[trigger] is_maximal_run(bytes, start, end) implies exists|k: int|
            0 <= k < tokens(bytes).len() && #[trigger] starts[k] == start && tokens(bytes)[k].len() == end
                - start by {
            lemma_places_miss_none(before, byte, earlier, start, end);
        }
        starts
    }
}

} // verus!
