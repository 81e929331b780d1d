//! The texts of log lines.
use crate::text::cat3;
use vstd::prelude::*;

verus! {

/// How many causes a line names.
pub const MAX_CAUSES: usize = 4;

/// A message and the first of its causes, outermost first.
pub open spec fn chained(message: Seq<char>, causes: Seq<Seq<char>>) -> Seq<char>
    decreases causes.len(),
{
    if causes.len() == 0 {
        message
    } else {
        chained(message, causes.drop_last()) + ": "@ + causes.last()
    }
}

/// The causes that a line has room for.
pub open spec fn bounded(causes: Seq<Seq<char>>) -> Seq<Seq<char>> {
    if causes.len() > MAX_CAUSES {
        causes.take(MAX_CAUSES as int)
    } else {
        causes
    }
}

/// A bounded chain of causes: the message, then at most four causes.
pub fn error_chain(message: &str, causes: &Vec<String>) -> (r: String)
    ensures
        r@ == chained(message@, bounded(causes.deep_view())),
{
    let ghost all = causes.deep_view();
    let n: usize = if causes.len() > MAX_CAUSES {
        MAX_CAUSES
    } else {
        causes.len()
    };
    let mut line = message.to_owned();
    for i in 0..n
        invariant
            n <= causes@.len(),
            all == causes.deep_view(),
            line@ == chained(message@, all.take(i as int)),
    {
        proof {
            let next = all.take(i + 1);
            assert(next.drop_last() =~= all.take(i as int));
            assert(next.last() == causes@[i as int]@);
        }
        line = cat3(line.as_str(), ": ", causes[i].as_str());
    }
    assert(all.take(all.len() as int) =~= all);
    line
}

/// A line names the message and then its first four causes, each behind a
/// colon; further causes are not named.
pub proof fn law_a_line_names_four_causes(
    message: Seq<char>,
    causes: Seq<Seq<char>>,
    more: Seq<Seq<char>>,
)
    requires
        causes.len() == 4,
    ensures
        chained(message, bounded(Seq::empty())) == message,
        chained(message, bounded(causes.take(1))) == message + ": "@ + causes[0],
        chained(message, bounded(causes.take(2))) == message + ": "@ + causes[0] + ": "@ + causes[1],
        chained(message, bounded(causes.take(3))) == message + ": "@ + causes[0] + ": "@ + causes[1]
            + ": "@ + causes[2],
        chained(message, bounded(causes + more)) == message + ": "@ + causes[0] + ": "@ + causes[1]
            + ": "@ + causes[2] + ": "@ + causes[3],
{
    reveal_with_fuel(chained, 6);
    assert(causes.take(1).drop_last() =~= Seq::<Seq<char>>::empty());
    assert(causes.take(2).drop_last() =~= causes.take(1));
    assert(causes.take(3).drop_last() =~= causes.take(2));
    assert(causes.drop_last() =~= causes.take(3));
    assert((causes + more).take(4) =~= causes);
    if more.len() == 0 {
        assert(causes + more =~= causes);
    }
}

} // verus!
