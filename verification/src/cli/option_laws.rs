//! What the command owes to the words of its command line.

use crate::cli::arguments::{is_given, value_from, value_of, ArgumentView};
use vstd::prelude::*;

verus! {

proof fn lemma_value_from(args: Seq<Seq<char>>, name: Seq<char>, from: int, at: int)
    requires
        0 <= from <= at < args.len(),
        args[at] == name,
        forall|i: int| from <= i < at ==> #[trigger] args[i] != name,
    ensures
        value_from(args, name, from) == if at + 1 < args.len() {
            ArgumentView::Given(args[at + 1])
        } else {
            ArgumentView::Missing
        },
    decreases at - from,
{
    if from < at {
        assert(args[from] != name);
        lemma_value_from(args, name, from + 1, at);
    }
}

proof fn lemma_absent(args: Seq<Seq<char>>, name: Seq<char>, from: int)
    requires
        0 <= from,
        forall|i: int| from <= i < args.len() ==> #[trigger] args[i] != name,
    ensures
        value_from(args, name, from) is Absent,
    decreases args.len() - from,
{
    if from < args.len() {
        assert(args[from] != name);
        lemma_absent(args, name, from + 1);
    }
}

/// The value of an option is the word behind its first mention, wherever that
/// stands; without a word behind it the value is missing, and without a mention
/// there is none.
pub proof fn law_options_take_the_word_behind_them(args: Seq<Seq<char>>, name: Seq<char>, at: int)
    requires
        0 <= at <= args.len(),
        at < args.len() ==> args[at] == name,
        forall|i: int| 0 <= i < at ==> #[trigger] args[i] != name,
    ensures
        at + 1 < args.len() ==> value_of(args, name) == ArgumentView::Given(args[at + 1]),
        at + 1 == args.len() ==> value_of(args, name) is Missing,
        at == args.len() ==> value_of(args, name) is Absent,
        is_given(args, name) <==> at < args.len(),
{
    if at < args.len() {
        lemma_value_from(args, name, 0, at);
        assert(args.contains(args[at]));
    } else {
        lemma_absent(args, name, 0);
    }
}

} // verus!
