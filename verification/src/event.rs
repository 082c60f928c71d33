use vstd::prelude::*;

verus! {

/// Direction of an observed message.
#[derive(Clone, Copy, Debug, PartialEq, Eq, Structural)]
pub enum Operation {
    Send,
    Receive,
}

/// One observed send or receive.
///
/// Every field keeps the text of the trace. The timestamp is a decimal number
/// of seconds; the ranks, the message kind and the size are labels and are
/// never read as numbers.
#[derive(Clone, Debug, PartialEq, Eq)]
pub struct MessageEvent {
    pub operation: Operation,
    pub timestamp: String,
    pub local_rank: String,
    pub remote_rank: String,
    pub user_type: String,
    pub size: String,
}

/// An ordered pair of ranks, local first: one direction of communication.
pub type RankPair = (Seq<char>, Seq<char>);

/// The mathematical value of a [`MessageEvent`].
pub struct EventView {
    pub operation: Operation,
    pub timestamp: Seq<char>,
    pub local_rank: Seq<char>,
    pub remote_rank: Seq<char>,
    pub user_type: Seq<char>,
    pub size: Seq<char>,
}

impl EventView {
    /// The rank pair under which the event is grouped.
    pub open spec fn key(self) -> RankPair {
        (self.local_rank, self.remote_rank)
    }
}

impl View for MessageEvent {
    type V = EventView;

    open spec fn view(&self) -> EventView {
        EventView {
            operation: self.operation,
            timestamp: self.timestamp@,
            local_rank: self.local_rank@,
            remote_rank: self.remote_rank@,
            user_type: self.user_type@,
            size: self.size@,
        }
    }
}

impl DeepView for MessageEvent {
    type V = EventView;

    open spec fn deep_view(&self) -> EventView {
        self@
    }
}

impl MessageEvent {
    /// An independent copy of the event.
    pub fn duplicate(&self) -> (copy: MessageEvent)
        ensures
            copy@ == self@,
    {
        MessageEvent {
            operation: self.operation,
            timestamp: self.timestamp.clone(),
            local_rank: self.local_rank.clone(),
            remote_rank: self.remote_rank.clone(),
            user_type: self.user_type.clone(),
            size: self.size.clone(),
        }
    }
}

/// A decimal digit, `0` to `9`.
pub open spec fn is_digit(c: char) -> bool {
    '0' <= c && c <= '9'
}

/// Every character is a decimal digit.
pub open spec fn all_digits(text: Seq<char>) -> bool {
    forall|i: int| 0 <= i < text.len() ==> is_digit(#[trigger] text[i])
}

/// A timestamp is written as decimal digits, a point, and decimal digits again,
/// with at least one digit on each side.
pub open spec fn is_timestamp(text: Seq<char>) -> bool {
    exists|dot: int|
        0 < dot < text.len() - 1 && #[trigger] text[dot] == '.' && all_digits(text.take(dot))
            && all_digits(text.skip(dot + 1))
}

/// The index of the first character of `text` at or after `from` that is no
/// decimal digit, or the length of `text` if there is none.
fn skip_digits(bytes: &[u8], from: usize) -> (end: usize)
    requires
        from <= bytes@.len(),
    ensures
        from <= end <= bytes@.len(),
        forall|i: int| from <= i < end ==> 48 <= #[trigger] bytes@[i] <= 57,
        end < bytes@.len() ==> !(48 <= bytes@[end as int] <= 57),
{
    let mut end: usize = from;
    while end < bytes.len() && 48 <= bytes[end] && bytes[end] <= 57
        invariant
            from <= end <= bytes@.len(),
            forall|i: int| from <= i < end ==> 48 <= #[trigger] bytes@[i] <= 57,
        decreases bytes@.len() - end,
    {
        end += 1;
    }
    end
}

/// Decides whether `text` is written as a timestamp.
pub fn timestamp_is_valid(text: &str) -> (ok: bool)
    ensures
        ok == is_timestamp(text@),
{
    if !text.is_ascii() {
        proof {
            if is_timestamp(text@) {
                let dot = choose|dot: int|
                    0 < dot < text@.len() - 1 && #[trigger] text@[dot] == '.' && all_digits(
                        text@.take(dot),
                    ) && all_digits(text@.skip(dot + 1));
                assert forall|i: int| 0 <= i < text@.len() implies '\0' <= #[trigger] text@[i]
                    <= '\u{7f}' by {
                    if i < dot {
                        assert(text@.take(dot)[i] == text@[i]);
                    } else if i > dot {
                        assert(text@.skip(dot + 1)[i - dot - 1] == text@[i]);
                    }
                }
            }
        }
        return false;
    }
    let bytes = text.as_bytes();
    proof {
        vstd::string::is_ascii_spec_bytes(text);
    }
    assert(bytes@.len() == text@.len());
    assert(forall|i: int| 0 <= i < text@.len() ==> bytes@[i] == #[trigger] text@[i] as u8);
    let whole = skip_digits(bytes, 0);
    if whole == 0 || whole >= bytes.len() || bytes[whole] != 46 {
        proof {
            if is_timestamp(text@) {
                let dot = choose|dot: int|
                    0 < dot < text@.len() - 1 && #[trigger] text@[dot] == '.' && all_digits(
                        text@.take(dot),
                    ) && all_digits(text@.skip(dot + 1));
                assert(bytes@[dot] == text@[dot] as u8);
                if whole < dot {
                    assert(text@.take(dot)[whole as int] == text@[whole as int]);
                    assert(bytes@[whole as int] == text@[whole as int] as u8);
                }
            }
        }
        return false;
    }
    let end = skip_digits(bytes, whole + 1);
    if end == whole + 1 || end < bytes.len() {
        proof {
            if is_timestamp(text@) {
                let dot = choose|dot: int|
                    0 < dot < text@.len() - 1 && #[trigger] text@[dot] == '.' && all_digits(
                        text@.take(dot),
                    ) && all_digits(text@.skip(dot + 1));
                assert(bytes@[dot] == text@[dot] as u8);
                if whole < dot {
                    assert(text@.take(dot)[whole as int] == text@[whole as int]);
                    assert(bytes@[whole as int] == text@[whole as int] as u8);
                }
                assert(dot == whole);
                assert(text@.skip(dot + 1)[end - dot - 1] == text@[end as int]);
                assert(bytes@[end as int] == text@[end as int] as u8);
            }
        }
        return false;
    }
    proof {
        let dot = whole as int;
        assert(bytes@[dot] == text@[dot] as u8);
        assert(text@[dot] == '.');
        assert forall|i: int| 0 <= i < text@.take(dot).len() implies is_digit(
            #[trigger] text@.take(dot)[i],
        ) by {
            assert(bytes@[i] == text@[i] as u8);
        }
        assert forall|i: int| 0 <= i < text@.skip(dot + 1).len() implies is_digit(
            #[trigger] text@.skip(dot + 1)[i],
        ) by {
            assert(bytes@[i + dot + 1] == text@[i + dot + 1] as u8);
        }
    }
    true
}

} // verus!
