//! What each option and each word of a command line does.

use vstd::prelude::*;

use crate::batch::{plan_of, PlanView};
use crate::cli::{
    after_words, batch_of, command_name, command_of, help_view, invocation_of, is_blank, line_of,
    merged_options, no_options, objection, option_step, options_of, scan, single_of, word_so_far,
    words_of, ArgsView, BatchView, Command, DefaultsView, OptionsView, OutcomeView,
};
use crate::invocations::lemma_options_join;
use crate::number::{dec, is_i64_literal, literal_value};
use crate::text::{has_char, index_from, trimmed};
use crate::VERSION;

verus! {

proof fn lemma_options_differ()
    ensures
        "--json"@ != "--batch"@,
        "--json"@ != "--verbose"@,
        "--json"@ != "--exact"@,
        "--json"@ != "--load"@,
        "--json"@ != "--control"@,
        "--json"@ != "--limit"@,
        "--json"@ != "--depth"@,
        "--json"@ != "--begin"@,
        "--json"@ != "--end"@,
        "--json"@ != "--scope"@,
        "--json"@ != "--filter"@,
        "--json"@ != "--exclude"@,
        "--json"@ != "--at"@,
        "--json"@ != "--condition"@,
        "--json"@ != "--show"@,
        "--json"@ != "--of"@,
        "--json"@ != "--kdb"@,
        "--json"@ != "--top"@,
        "--batch"@ != "--verbose"@,
        "--batch"@ != "--exact"@,
        "--batch"@ != "--load"@,
        "--batch"@ != "--control"@,
        "--batch"@ != "--limit"@,
        "--batch"@ != "--depth"@,
        "--batch"@ != "--begin"@,
        "--batch"@ != "--end"@,
        "--batch"@ != "--scope"@,
        "--batch"@ != "--filter"@,
        "--batch"@ != "--exclude"@,
        "--batch"@ != "--at"@,
        "--batch"@ != "--condition"@,
        "--batch"@ != "--show"@,
        "--batch"@ != "--of"@,
        "--batch"@ != "--kdb"@,
        "--batch"@ != "--top"@,
        "--verbose"@ != "--exact"@,
        "--verbose"@ != "--load"@,
        "--verbose"@ != "--control"@,
        "--verbose"@ != "--limit"@,
        "--verbose"@ != "--depth"@,
        "--verbose"@ != "--begin"@,
        "--verbose"@ != "--end"@,
        "--verbose"@ != "--scope"@,
        "--verbose"@ != "--filter"@,
        "--verbose"@ != "--exclude"@,
        "--verbose"@ != "--at"@,
        "--verbose"@ != "--condition"@,
        "--verbose"@ != "--show"@,
        "--verbose"@ != "--of"@,
        "--verbose"@ != "--kdb"@,
        "--verbose"@ != "--top"@,
        "--exact"@ != "--load"@,
        "--exact"@ != "--control"@,
        "--exact"@ != "--limit"@,
        "--exact"@ != "--depth"@,
        "--exact"@ != "--begin"@,
        "--exact"@ != "--end"@,
        "--exact"@ != "--scope"@,
        "--exact"@ != "--filter"@,
        "--exact"@ != "--exclude"@,
        "--exact"@ != "--at"@,
        "--exact"@ != "--condition"@,
        "--exact"@ != "--show"@,
        "--exact"@ != "--of"@,
        "--exact"@ != "--kdb"@,
        "--exact"@ != "--top"@,
        "--load"@ != "--control"@,
        "--load"@ != "--limit"@,
        "--load"@ != "--depth"@,
        "--load"@ != "--begin"@,
        "--load"@ != "--end"@,
        "--load"@ != "--scope"@,
        "--load"@ != "--filter"@,
        "--load"@ != "--exclude"@,
        "--load"@ != "--at"@,
        "--load"@ != "--condition"@,
        "--load"@ != "--show"@,
        "--load"@ != "--of"@,
        "--load"@ != "--kdb"@,
        "--load"@ != "--top"@,
        "--control"@ != "--limit"@,
        "--control"@ != "--depth"@,
        "--control"@ != "--begin"@,
        "--control"@ != "--end"@,
        "--control"@ != "--scope"@,
        "--control"@ != "--filter"@,
        "--control"@ != "--exclude"@,
        "--control"@ != "--at"@,
        "--control"@ != "--condition"@,
        "--control"@ != "--show"@,
        "--control"@ != "--of"@,
        "--control"@ != "--kdb"@,
        "--control"@ != "--top"@,
        "--limit"@ != "--depth"@,
        "--limit"@ != "--begin"@,
        "--limit"@ != "--end"@,
        "--limit"@ != "--scope"@,
        "--limit"@ != "--filter"@,
        "--limit"@ != "--exclude"@,
        "--limit"@ != "--at"@,
        "--limit"@ != "--condition"@,
        "--limit"@ != "--show"@,
        "--limit"@ != "--of"@,
        "--limit"@ != "--kdb"@,
        "--limit"@ != "--top"@,
        "--depth"@ != "--begin"@,
        "--depth"@ != "--end"@,
        "--depth"@ != "--scope"@,
        "--depth"@ != "--filter"@,
        "--depth"@ != "--exclude"@,
        "--depth"@ != "--at"@,
        "--depth"@ != "--condition"@,
        "--depth"@ != "--show"@,
        "--depth"@ != "--of"@,
        "--depth"@ != "--kdb"@,
        "--depth"@ != "--top"@,
        "--begin"@ != "--end"@,
        "--begin"@ != "--scope"@,
        "--begin"@ != "--filter"@,
        "--begin"@ != "--exclude"@,
        "--begin"@ != "--at"@,
        "--begin"@ != "--condition"@,
        "--begin"@ != "--show"@,
        "--begin"@ != "--of"@,
        "--begin"@ != "--kdb"@,
        "--begin"@ != "--top"@,
        "--end"@ != "--scope"@,
        "--end"@ != "--filter"@,
        "--end"@ != "--exclude"@,
        "--end"@ != "--at"@,
        "--end"@ != "--condition"@,
        "--end"@ != "--show"@,
        "--end"@ != "--of"@,
        "--end"@ != "--kdb"@,
        "--end"@ != "--top"@,
        "--scope"@ != "--filter"@,
        "--scope"@ != "--exclude"@,
        "--scope"@ != "--at"@,
        "--scope"@ != "--condition"@,
        "--scope"@ != "--show"@,
        "--scope"@ != "--of"@,
        "--scope"@ != "--kdb"@,
        "--scope"@ != "--top"@,
        "--filter"@ != "--exclude"@,
        "--filter"@ != "--at"@,
        "--filter"@ != "--condition"@,
        "--filter"@ != "--show"@,
        "--filter"@ != "--of"@,
        "--filter"@ != "--kdb"@,
        "--filter"@ != "--top"@,
        "--exclude"@ != "--at"@,
        "--exclude"@ != "--condition"@,
        "--exclude"@ != "--show"@,
        "--exclude"@ != "--of"@,
        "--exclude"@ != "--kdb"@,
        "--exclude"@ != "--top"@,
        "--at"@ != "--condition"@,
        "--at"@ != "--show"@,
        "--at"@ != "--of"@,
        "--at"@ != "--kdb"@,
        "--at"@ != "--top"@,
        "--condition"@ != "--show"@,
        "--condition"@ != "--of"@,
        "--condition"@ != "--kdb"@,
        "--condition"@ != "--top"@,
        "--show"@ != "--of"@,
        "--show"@ != "--kdb"@,
        "--show"@ != "--top"@,
        "--of"@ != "--kdb"@,
        "--of"@ != "--top"@,
        "--kdb"@ != "--top"@,
{
    reveal_strlit("--json");
    reveal_strlit("--batch");
    reveal_strlit("--verbose");
    reveal_strlit("--exact");
    reveal_strlit("--load");
    reveal_strlit("--control");
    reveal_strlit("--limit");
    reveal_strlit("--depth");
    reveal_strlit("--begin");
    reveal_strlit("--end");
    reveal_strlit("--scope");
    reveal_strlit("--filter");
    reveal_strlit("--exclude");
    reveal_strlit("--at");
    reveal_strlit("--condition");
    reveal_strlit("--show");
    reveal_strlit("--of");
    reveal_strlit("--kdb");
    reveal_strlit("--top");
    assert("--json"@.len() != "--batch"@.len());
    assert("--json"@.len() != "--verbose"@.len());
    assert("--json"@.len() != "--exact"@.len());
    assert("--json"@[2] != "--load"@[2]);
    assert("--json"@.len() != "--control"@.len());
    assert("--json"@.len() != "--limit"@.len());
    assert("--json"@.len() != "--depth"@.len());
    assert("--json"@.len() != "--begin"@.len());
    assert("--json"@.len() != "--end"@.len());
    assert("--json"@.len() != "--scope"@.len());
    assert("--json"@.len() != "--filter"@.len());
    assert("--json"@.len() != "--exclude"@.len());
    assert("--json"@.len() != "--at"@.len());
    assert("--json"@.len() != "--condition"@.len());
    assert("--json"@[2] != "--show"@[2]);
    assert("--json"@.len() != "--of"@.len());
    assert("--json"@.len() != "--kdb"@.len());
    assert("--json"@.len() != "--top"@.len());
    assert("--batch"@.len() != "--verbose"@.len());
    assert("--batch"@[2] != "--exact"@[2]);
    assert("--batch"@.len() != "--load"@.len());
    assert("--batch"@.len() != "--control"@.len());
    assert("--batch"@[2] != "--limit"@[2]);
    assert("--batch"@[2] != "--depth"@[2]);
    assert("--batch"@[3] != "--begin"@[3]);
    assert("--batch"@.len() != "--end"@.len());
    assert("--batch"@[2] != "--scope"@[2]);
    assert("--batch"@.len() != "--filter"@.len());
    assert("--batch"@.len() != "--exclude"@.len());
    assert("--batch"@.len() != "--at"@.len());
    assert("--batch"@.len() != "--condition"@.len());
    assert("--batch"@.len() != "--show"@.len());
    assert("--batch"@.len() != "--of"@.len());
    assert("--batch"@.len() != "--kdb"@.len());
    assert("--batch"@.len() != "--top"@.len());
    assert("--verbose"@.len() != "--exact"@.len());
    assert("--verbose"@.len() != "--load"@.len());
    assert("--verbose"@[2] != "--control"@[2]);
    assert("--verbose"@.len() != "--limit"@.len());
    assert("--verbose"@.len() != "--depth"@.len());
    assert("--verbose"@.len() != "--begin"@.len());
    assert("--verbose"@.len() != "--end"@.len());
    assert("--verbose"@.len() != "--scope"@.len());
    assert("--verbose"@.len() != "--filter"@.len());
    assert("--verbose"@[2] != "--exclude"@[2]);
    assert("--verbose"@.len() != "--at"@.len());
    assert("--verbose"@.len() != "--condition"@.len());
    assert("--verbose"@.len() != "--show"@.len());
    assert("--verbose"@.len() != "--of"@.len());
    assert("--verbose"@.len() != "--kdb"@.len());
    assert("--verbose"@.len() != "--top"@.len());
    assert("--exact"@.len() != "--load"@.len());
    assert("--exact"@.len() != "--control"@.len());
    assert("--exact"@[2] != "--limit"@[2]);
    assert("--exact"@[2] != "--depth"@[2]);
    assert("--exact"@[2] != "--begin"@[2]);
    assert("--exact"@.len() != "--end"@.len());
    assert("--exact"@[2] != "--scope"@[2]);
    assert("--exact"@.len() != "--filter"@.len());
    assert("--exact"@.len() != "--exclude"@.len());
    assert("--exact"@.len() != "--at"@.len());
    assert("--exact"@.len() != "--condition"@.len());
    assert("--exact"@.len() != "--show"@.len());
    assert("--exact"@.len() != "--of"@.len());
    assert("--exact"@.len() != "--kdb"@.len());
    assert("--exact"@.len() != "--top"@.len());
    assert("--load"@.len() != "--control"@.len());
    assert("--load"@.len() != "--limit"@.len());
    assert("--load"@.len() != "--depth"@.len());
    assert("--load"@.len() != "--begin"@.len());
    assert("--load"@.len() != "--end"@.len());
    assert("--load"@.len() != "--scope"@.len());
    assert("--load"@.len() != "--filter"@.len());
    assert("--load"@.len() != "--exclude"@.len());
    assert("--load"@.len() != "--at"@.len());
    assert("--load"@.len() != "--condition"@.len());
    assert("--load"@[2] != "--show"@[2]);
    assert("--load"@.len() != "--of"@.len());
    assert("--load"@.len() != "--kdb"@.len());
    assert("--load"@.len() != "--top"@.len());
    assert("--control"@.len() != "--limit"@.len());
    assert("--control"@.len() != "--depth"@.len());
    assert("--control"@.len() != "--begin"@.len());
    assert("--control"@.len() != "--end"@.len());
    assert("--control"@.len() != "--scope"@.len());
    assert("--control"@.len() != "--filter"@.len());
    assert("--control"@[2] != "--exclude"@[2]);
    assert("--control"@.len() != "--at"@.len());
    assert("--control"@.len() != "--condition"@.len());
    assert("--control"@.len() != "--show"@.len());
    assert("--control"@.len() != "--of"@.len());
    assert("--control"@.len() != "--kdb"@.len());
    assert("--control"@.len() != "--top"@.len());
    assert("--limit"@[2] != "--depth"@[2]);
    assert("--limit"@[2] != "--begin"@[2]);
    assert("--limit"@.len() != "--end"@.len());
    assert("--limit"@[2] != "--scope"@[2]);
    assert("--limit"@.len() != "--filter"@.len());
    assert("--limit"@.len() != "--exclude"@.len());
    assert("--limit"@.len() != "--at"@.len());
    assert("--limit"@.len() != "--condition"@.len());
    assert("--limit"@.len() != "--show"@.len());
    assert("--limit"@.len() != "--of"@.len());
    assert("--limit"@.len() != "--kdb"@.len());
    assert("--limit"@.len() != "--top"@.len());
    assert("--depth"@[2] != "--begin"@[2]);
    assert("--depth"@.len() != "--end"@.len());
    assert("--depth"@[2] != "--scope"@[2]);
    assert("--depth"@.len() != "--filter"@.len());
    assert("--depth"@.len() != "--exclude"@.len());
    assert("--depth"@.len() != "--at"@.len());
    assert("--depth"@.len() != "--condition"@.len());
    assert("--depth"@.len() != "--show"@.len());
    assert("--depth"@.len() != "--of"@.len());
    assert("--depth"@.len() != "--kdb"@.len());
    assert("--depth"@.len() != "--top"@.len());
    assert("--begin"@.len() != "--end"@.len());
    assert("--begin"@[2] != "--scope"@[2]);
    assert("--begin"@.len() != "--filter"@.len());
    assert("--begin"@.len() != "--exclude"@.len());
    assert("--begin"@.len() != "--at"@.len());
    assert("--begin"@.len() != "--condition"@.len());
    assert("--begin"@.len() != "--show"@.len());
    assert("--begin"@.len() != "--of"@.len());
    assert("--begin"@.len() != "--kdb"@.len());
    assert("--begin"@.len() != "--top"@.len());
    assert("--end"@.len() != "--scope"@.len());
    assert("--end"@.len() != "--filter"@.len());
    assert("--end"@.len() != "--exclude"@.len());
    assert("--end"@.len() != "--at"@.len());
    assert("--end"@.len() != "--condition"@.len());
    assert("--end"@.len() != "--show"@.len());
    assert("--end"@.len() != "--of"@.len());
    assert("--end"@[2] != "--kdb"@[2]);
    assert("--end"@[2] != "--top"@[2]);
    assert("--scope"@.len() != "--filter"@.len());
    assert("--scope"@.len() != "--exclude"@.len());
    assert("--scope"@.len() != "--at"@.len());
    assert("--scope"@.len() != "--condition"@.len());
    assert("--scope"@.len() != "--show"@.len());
    assert("--scope"@.len() != "--of"@.len());
    assert("--scope"@.len() != "--kdb"@.len());
    assert("--scope"@.len() != "--top"@.len());
    assert("--filter"@.len() != "--exclude"@.len());
    assert("--filter"@.len() != "--at"@.len());
    assert("--filter"@.len() != "--condition"@.len());
    assert("--filter"@.len() != "--show"@.len());
    assert("--filter"@.len() != "--of"@.len());
    assert("--filter"@.len() != "--kdb"@.len());
    assert("--filter"@.len() != "--top"@.len());
    assert("--exclude"@.len() != "--at"@.len());
    assert("--exclude"@.len() != "--condition"@.len());
    assert("--exclude"@.len() != "--show"@.len());
    assert("--exclude"@.len() != "--of"@.len());
    assert("--exclude"@.len() != "--kdb"@.len());
    assert("--exclude"@.len() != "--top"@.len());
    assert("--at"@.len() != "--condition"@.len());
    assert("--at"@.len() != "--show"@.len());
    assert("--at"@[2] != "--of"@[2]);
    assert("--at"@.len() != "--kdb"@.len());
    assert("--at"@.len() != "--top"@.len());
    assert("--condition"@.len() != "--show"@.len());
    assert("--condition"@.len() != "--of"@.len());
    assert("--condition"@.len() != "--kdb"@.len());
    assert("--condition"@.len() != "--top"@.len());
    assert("--show"@.len() != "--of"@.len());
    assert("--show"@.len() != "--kdb"@.len());
    assert("--show"@.len() != "--top"@.len());
    assert("--of"@.len() != "--kdb"@.len());
    assert("--of"@.len() != "--top"@.len());
    assert("--kdb"@[2] != "--top"@[2]);
}

proof fn lemma_commands_differ()
    ensures
        "info"@ != "list"@,
        "info"@ != "dump"@,
        "info"@ != "summary"@,
        "info"@ != "snapshot"@,
        "info"@ != "compare"@,
        "info"@ != "search"@,
        "info"@ != "tree"@,
        "info"@ != "trace"@,
        "list"@ != "dump"@,
        "list"@ != "summary"@,
        "list"@ != "snapshot"@,
        "list"@ != "compare"@,
        "list"@ != "search"@,
        "list"@ != "tree"@,
        "list"@ != "trace"@,
        "dump"@ != "summary"@,
        "dump"@ != "snapshot"@,
        "dump"@ != "compare"@,
        "dump"@ != "search"@,
        "dump"@ != "tree"@,
        "dump"@ != "trace"@,
        "summary"@ != "snapshot"@,
        "summary"@ != "compare"@,
        "summary"@ != "search"@,
        "summary"@ != "tree"@,
        "summary"@ != "trace"@,
        "snapshot"@ != "compare"@,
        "snapshot"@ != "search"@,
        "snapshot"@ != "tree"@,
        "snapshot"@ != "trace"@,
        "compare"@ != "search"@,
        "compare"@ != "tree"@,
        "compare"@ != "trace"@,
        "search"@ != "tree"@,
        "search"@ != "trace"@,
        "tree"@ != "trace"@,
{
    reveal_strlit("info");
    reveal_strlit("list");
    reveal_strlit("dump");
    reveal_strlit("summary");
    reveal_strlit("snapshot");
    reveal_strlit("compare");
    reveal_strlit("search");
    reveal_strlit("tree");
    reveal_strlit("trace");
    assert("info"@[0] != "list"@[0]);
    assert("info"@[0] != "dump"@[0]);
    assert("info"@.len() != "summary"@.len());
    assert("info"@.len() != "snapshot"@.len());
    assert("info"@.len() != "compare"@.len());
    assert("info"@.len() != "search"@.len());
    assert("info"@[0] != "tree"@[0]);
    assert("info"@.len() != "trace"@.len());
    assert("list"@[0] != "dump"@[0]);
    assert("list"@.len() != "summary"@.len());
    assert("list"@.len() != "snapshot"@.len());
    assert("list"@.len() != "compare"@.len());
    assert("list"@.len() != "search"@.len());
    assert("list"@[0] != "tree"@[0]);
    assert("list"@.len() != "trace"@.len());
    assert("dump"@.len() != "summary"@.len());
    assert("dump"@.len() != "snapshot"@.len());
    assert("dump"@.len() != "compare"@.len());
    assert("dump"@.len() != "search"@.len());
    assert("dump"@[0] != "tree"@[0]);
    assert("dump"@.len() != "trace"@.len());
    assert("summary"@.len() != "snapshot"@.len());
    assert("summary"@[0] != "compare"@[0]);
    assert("summary"@.len() != "search"@.len());
    assert("summary"@.len() != "tree"@.len());
    assert("summary"@.len() != "trace"@.len());
    assert("snapshot"@.len() != "compare"@.len());
    assert("snapshot"@.len() != "search"@.len());
    assert("snapshot"@.len() != "tree"@.len());
    assert("snapshot"@.len() != "trace"@.len());
    assert("compare"@.len() != "search"@.len());
    assert("compare"@.len() != "tree"@.len());
    assert("compare"@.len() != "trace"@.len());
    assert("search"@.len() != "tree"@.len());
    assert("search"@.len() != "trace"@.len());
    assert("tree"@.len() != "trace"@.len());
}

/// Is the option set, and everything else as it was?
pub open spec fn sets(words: Seq<Seq<char>>, acc: OptionsView, given: DefaultsView) -> bool {
    options_of(words, acc, false) == Ok::<OptionsView, Seq<char>>(OptionsView { given, ..acc })
}

proof fn lemma_step_is_all(words: Seq<Seq<char>>, acc: OptionsView, next: OptionsView)
    requires
        words.len() > 0,
        option_step(words, acc, false) == Ok::<(int, OptionsView), Seq<char>>(
            (words.len() as int, next),
        ),
    ensures
        options_of(words, acc, false) == Ok::<OptionsView, Seq<char>>(next),
{
    assert(words.skip(words.len() as int) =~= Seq::empty());
    assert(options_of(Seq::empty(), next, false) == Ok::<OptionsView, Seq<char>>(next));
}

/// Each option that takes a text sets its own value and no other; a condition
/// is added to those before it.
pub proof fn text_options_set_their_own(acc: OptionsView, v: Seq<char>)
    ensures
        sets(seq!["--begin"@, v], acc, DefaultsView { begin: Some(v), ..acc.given }),
        sets(seq!["--end"@, v], acc, DefaultsView { end: Some(v), ..acc.given }),
        sets(seq!["--scope"@, v], acc, DefaultsView { scope: Some(v), ..acc.given }),
        sets(seq!["--filter"@, v], acc, DefaultsView { filter: Some(v), ..acc.given }),
        sets(seq!["--exclude"@, v], acc, DefaultsView { exclude: Some(v), ..acc.given }),
        sets(seq!["--at"@, v], acc, DefaultsView { at: Some(v), ..acc.given }),
        sets(seq!["--show"@, v], acc, DefaultsView { show: Some(v), ..acc.given }),
        sets(seq!["--of"@, v], acc, DefaultsView { of: Some(v), ..acc.given }),
        sets(seq!["--kdb"@, v], acc, DefaultsView { kdb: Some(v), ..acc.given }),
        sets(seq!["--top"@, v], acc, DefaultsView { top: Some(v), ..acc.given }),
        sets(
            seq!["--condition"@, v],
            acc,
            DefaultsView { condition: acc.given.condition.push(v), ..acc.given },
        ),
{
    lemma_options_differ();
    lemma_step_is_all(
        seq!["--begin"@, v],
        acc,
        OptionsView { given: DefaultsView { begin: Some(v), ..acc.given }, ..acc },
    );
    lemma_step_is_all(
        seq!["--end"@, v],
        acc,
        OptionsView { given: DefaultsView { end: Some(v), ..acc.given }, ..acc },
    );
    lemma_step_is_all(
        seq!["--scope"@, v],
        acc,
        OptionsView { given: DefaultsView { scope: Some(v), ..acc.given }, ..acc },
    );
    lemma_step_is_all(
        seq!["--filter"@, v],
        acc,
        OptionsView { given: DefaultsView { filter: Some(v), ..acc.given }, ..acc },
    );
    lemma_step_is_all(
        seq!["--exclude"@, v],
        acc,
        OptionsView { given: DefaultsView { exclude: Some(v), ..acc.given }, ..acc },
    );
    lemma_step_is_all(
        seq!["--at"@, v],
        acc,
        OptionsView { given: DefaultsView { at: Some(v), ..acc.given }, ..acc },
    );
    lemma_step_is_all(
        seq!["--show"@, v],
        acc,
        OptionsView { given: DefaultsView { show: Some(v), ..acc.given }, ..acc },
    );
    lemma_step_is_all(
        seq!["--of"@, v],
        acc,
        OptionsView { given: DefaultsView { of: Some(v), ..acc.given }, ..acc },
    );
    lemma_step_is_all(
        seq!["--kdb"@, v],
        acc,
        OptionsView { given: DefaultsView { kdb: Some(v), ..acc.given }, ..acc },
    );
    lemma_step_is_all(
        seq!["--top"@, v],
        acc,
        OptionsView { given: DefaultsView { top: Some(v), ..acc.given }, ..acc },
    );
    lemma_step_is_all(
        seq!["--condition"@, v],
        acc,
        OptionsView {
            given: DefaultsView { condition: acc.given.condition.push(v), ..acc.given },
            ..acc
        },
    );
}

/// `--limit` and `--depth` set their own value to the integer that is written,
/// and refuse what is not one.
pub proof fn number_options_set_their_own(acc: OptionsView, v: Seq<char>)
    ensures
        is_i64_literal(v) ==> sets(
            seq!["--limit"@, v],
            acc,
            DefaultsView { limit: Some(literal_value(v)), ..acc.given },
        ),
        is_i64_literal(v) ==> sets(
            seq!["--depth"@, v],
            acc,
            DefaultsView { depth: Some(literal_value(v)), ..acc.given },
        ),
        !is_i64_literal(v) ==> options_of(seq!["--limit"@, v], acc, false) is Err,
        !is_i64_literal(v) ==> options_of(seq!["--depth"@, v], acc, false) is Err,
{
    lemma_options_differ();
    if is_i64_literal(v) {
        lemma_step_is_all(
            seq!["--limit"@, v],
            acc,
            OptionsView {
                given: DefaultsView { limit: Some(literal_value(v)), ..acc.given },
                ..acc
            },
        );
        lemma_step_is_all(
            seq!["--depth"@, v],
            acc,
            OptionsView {
                given: DefaultsView { depth: Some(literal_value(v)), ..acc.given },
                ..acc
            },
        );
    }
}

/// Each switch turns itself on and nothing else.
pub proof fn switches_turn_themselves_on(acc: OptionsView)
    ensures
        sets(seq!["--verbose"@], acc, DefaultsView { verbose: true, ..acc.given }),
        sets(seq!["--exact"@], acc, DefaultsView { exact: true, ..acc.given }),
        sets(seq!["--load"@], acc, DefaultsView { load: true, ..acc.given }),
        sets(seq!["--control"@], acc, DefaultsView { control: true, ..acc.given }),
        options_of(seq!["--json"@], acc, false) == Ok::<OptionsView, Seq<char>>(
            OptionsView { json: true, ..acc },
        ),
        options_of(seq!["--batch"@], acc, false) == Ok::<OptionsView, Seq<char>>(
            OptionsView { batch: true, ..acc },
        ),
{
    lemma_options_differ();
    lemma_step_is_all(
        seq!["--verbose"@],
        acc,
        OptionsView { given: DefaultsView { verbose: true, ..acc.given }, ..acc },
    );
    lemma_step_is_all(
        seq!["--exact"@],
        acc,
        OptionsView { given: DefaultsView { exact: true, ..acc.given }, ..acc },
    );
    lemma_step_is_all(
        seq!["--load"@],
        acc,
        OptionsView { given: DefaultsView { load: true, ..acc.given }, ..acc },
    );
    lemma_step_is_all(
        seq!["--control"@],
        acc,
        OptionsView { given: DefaultsView { control: true, ..acc.given }, ..acc },
    );
    lemma_step_is_all(seq!["--json"@], acc, OptionsView { json: true, ..acc });
    lemma_step_is_all(seq!["--batch"@], acc, OptionsView { batch: true, ..acc });
}

/// An option that takes a text and is written last has the last word: it holds
/// whatever came before it.
pub proof fn the_last_option_holds(words: Seq<Seq<char>>, v: Seq<char>)
    requires
        options_of(words, no_options(), false) is Ok,
    ensures
        options_of(words + seq!["--begin"@, v], no_options(), false) is Ok,
        options_of(words + seq!["--begin"@, v], no_options(), false)->Ok_0.given.begin == Some(v),
        options_of(words + seq!["--end"@, v], no_options(), false) is Ok,
        options_of(words + seq!["--end"@, v], no_options(), false)->Ok_0.given.end == Some(v),
        options_of(words + seq!["--scope"@, v], no_options(), false) is Ok,
        options_of(words + seq!["--scope"@, v], no_options(), false)->Ok_0.given.scope == Some(v),
        options_of(words + seq!["--filter"@, v], no_options(), false) is Ok,
        options_of(words + seq!["--filter"@, v], no_options(), false)->Ok_0.given.filter == Some(v),
        options_of(words + seq!["--exclude"@, v], no_options(), false) is Ok,
        options_of(words + seq!["--exclude"@, v], no_options(), false)->Ok_0.given.exclude == Some(v),
        options_of(words + seq!["--at"@, v], no_options(), false) is Ok,
        options_of(words + seq!["--at"@, v], no_options(), false)->Ok_0.given.at == Some(v),
{
    let acc = options_of(words, no_options(), false)->Ok_0;
    text_options_set_their_own(acc, v);
    lemma_options_join(words, seq!["--begin"@, v], no_options());
    lemma_options_join(words, seq!["--end"@, v], no_options());
    lemma_options_join(words, seq!["--scope"@, v], no_options());
    lemma_options_join(words, seq!["--filter"@, v], no_options());
    lemma_options_join(words, seq!["--exclude"@, v], no_options());
    lemma_options_join(words, seq!["--at"@, v], no_options());
}

/// A command is known by its name.
pub proof fn commands_are_named(c: Command)
    ensures
        command_of(command_name(c)) == Some(c),
{
    lemma_commands_differ();
}

/// Does a command carry just what the options give?
pub open spec fn carries(a: ArgsView, g: DefaultsView) -> bool {
    &&& a.limit == g.limit
    &&& a.verbose == g.verbose
    &&& a.exact == g.exact
    &&& a.begin == g.begin
    &&& a.end == g.end
    &&& a.scope == g.scope
    &&& a.depth == g.depth
    &&& a.filter == g.filter
    &&& a.exclude == g.exclude
    &&& a.at == g.at
    &&& a.condition == g.condition
    &&& a.show == g.show
    &&& a.of == g.of
    &&& a.kdb == g.kdb
    &&& a.top == g.top
    &&& a.load == g.load
    &&& a.control == g.control
}

/// A run has the command, the file, the target and the options that are
/// written.
pub proof fn a_run_is_as_written(o: OptionsView)
    ensures
        single_of(o) matches OutcomeView::Run(a) ==> {
            &&& o.command == Some(a.command)
            &&& o.positionals.len() > 0 && a.file == o.positionals[0]
            &&& a.target == (if o.positionals.len() > 1 {
                Some(o.positionals[1])
            } else {
                None
            })
            &&& o.positionals.len() > 1 ==> a.command == Command::Tree || a.command
                == Command::Trace
            &&& a.json == o.json
            &&& carries(a, o.given)
        },
        o.command is Some && o.positionals.len() == 1 && objection(o.command->0, o.given) is None
            ==> single_of(o) is Run,
{
}

/// Which option goes first: the line's own, where it has one.
pub open spec fn chosen_of<A>(own: Option<A>, default: Option<A>) -> Option<A> {
    match own {
        Some(_) => own,
        None => default,
    }
}

/// In a batch, a line's own options go before the common ones; a switch is on
/// where either turns it on.
pub proof fn own_options_go_first(line: DefaultsView, common: DefaultsView)
    ensures
        ({
            let m = merged_options(line, common);
            &&& m.limit == chosen_of(line.limit, common.limit)
            &&& m.begin == chosen_of(line.begin, common.begin)
            &&& m.end == chosen_of(line.end, common.end)
            &&& m.scope == chosen_of(line.scope, common.scope)
            &&& m.depth == chosen_of(line.depth, common.depth)
            &&& m.filter == chosen_of(line.filter, common.filter)
            &&& m.exclude == chosen_of(line.exclude, common.exclude)
            &&& m.at == chosen_of(line.at, common.at)
            &&& m.show == chosen_of(line.show, common.show)
            &&& m.of == chosen_of(line.of, common.of)
            &&& m.kdb == chosen_of(line.kdb, common.kdb)
            &&& m.top == chosen_of(line.top, common.top)
            &&& line.condition.len() > 0 ==> m.condition == line.condition
            &&& line.condition.len() == 0 ==> m.condition == common.condition
            &&& m.verbose <==> line.verbose || common.verbose
            &&& m.exact <==> line.exact || common.exact
            &&& m.load <==> line.load || common.load
            &&& m.control <==> line.control || common.control
        }),
{
}

/// A line of a batch runs its command on the file of the batch, with its own
/// options before the common ones.
pub proof fn a_line_runs_on_the_file(words: Seq<Seq<char>>, file: Seq<char>, common: DefaultsView)
    ensures
        line_of(words, file, common) matches Ok(a) ==> {
            &&& options_of(words, no_options(), false) is Ok
            &&& options_of(words, no_options(), false)->Ok_0.command == Some(a.command)
            &&& a.file == file
            &&& !a.json
            &&& carries(
                a,
                merged_options(options_of(words, no_options(), false)->Ok_0.given, common),
            )
        },
{
}

/// What is objected to: a snapshot or a comparison without times, a search
/// without a condition, a negative limit, a depth that is not positive, and a
/// depth without a scope, but for a tree.
pub proof fn objections_are_just(c: Command, g: DefaultsView)
    ensures
        objection(c, g) is Some <==> ((c == Command::Snapshot || c == Command::Compare) && g.at
            is None) || (c == Command::Search && g.condition.len() == 0) || (g.limit matches Some(
            n,
        ) && n < 0) || (g.depth matches Some(n) && n < 1) || (g.depth is Some && c != Command::Tree
            && !(g.scope matches Some(s) && trimmed(s).len() > 0)),
{
}

// ---- the words of a line ----

/// Is the text a plain word: no blank, quote, backslash or hash?
pub open spec fn is_plain_word(w: Seq<char>) -> bool {
    w.len() > 0 && forall|i: int|
        0 <= i < w.len() ==> !is_blank(#[trigger] w[i]) && w[i] != '#' && w[i] != '\'' && w[i]
            != '"' && w[i] != '\\'
}

proof fn lemma_plain(w: Seq<char>, rest: Seq<char>, cur: Option<Seq<char>>)
    requires
        forall|i: int|
            0 <= i < w.len() ==> !is_blank(#[trigger] w[i]) && w[i] != '#' && w[i] != '\'' && w[i]
                != '"' && w[i] != '\\',
        w.len() > 0,
    ensures
        words_of(w + rest, cur) == words_of(rest, Some(word_so_far(cur) + w)),
    decreases w.len(),
{
    let all = w + rest;
    let less = w.skip(1);
    assert(all.skip(1) =~= less + rest);
    assert(all[0] == w[0]);
    let now = word_so_far(cur).push(w[0]);
    if less.len() == 0 {
        assert(less + rest =~= rest);
        assert(now =~= word_so_far(cur) + w);
    } else {
        assert forall|i: int| 0 <= i < less.len() implies !is_blank(#[trigger] less[i]) && less[i]
            != '#' && less[i] != '\'' && less[i] != '"' && less[i] != '\\' by {
            assert(less[i] == w[i + 1]);
        }
        lemma_plain(less, rest, Some(now));
        assert(now + less =~= word_so_far(cur) + w);
    }
}

/// A line is cut into words at its blanks.
pub proof fn words_are_cut_at_blanks(w: Seq<char>, blank: char, rest: Seq<char>)
    requires
        is_plain_word(w),
        is_blank(blank),
    ensures
        words_of(w + (seq![blank] + rest), None) == after_words(seq![w], words_of(rest, None)),
        words_of(seq![blank] + rest, None) == words_of(rest, None),
        words_of(w, None) == Ok::<(Seq<Seq<char>>, Option<Seq<char>>), Seq<char>>(
            (seq![w], None),
        ),
{
    let tail = seq![blank] + rest;
    lemma_plain(w, tail, None);
    assert(Seq::<char>::empty() + w =~= w);
    assert(tail.skip(1) =~= rest);
    assert(tail[0] == blank);
    match words_of(rest, None) {
        Ok((t, l)) => {
            assert(Seq::<Seq<char>>::empty() + t =~= t);
        },
        Err(_) => {},
    }
    lemma_plain(w, Seq::empty(), None);
    assert(w + Seq::<char>::empty() =~= w);
}

proof fn lemma_index(s: Seq<char>, c: char, n: int, from: int)
    requires
        0 <= from <= n <= s.len(),
        forall|i: int| from <= i < n ==> #[trigger] s[i] != c,
        n < s.len() ==> s[n] == c,
    ensures
        index_from(s, c, from) == n,
    decreases n - from,
{
    if from < n {
        lemma_index(s, c, n, from + 1);
    }
}

/// Between single quotes everything is part of the word.
pub proof fn quotes_keep_everything(t: Seq<char>, rest: Seq<char>)
    requires
        !has_char(t, '\''),
    ensures
        words_of(seq!['\''] + (t + (seq!['\''] + rest)), None) == words_of(rest, Some(t)),
        words_of(seq!['\''] + (t + seq!['\'']), None) == Ok::<
            (Seq<Seq<char>>, Option<Seq<char>>),
            Seq<char>,
        >((seq![t], None)),
{
    lemma_quoted(t, rest);
    lemma_quoted(t, Seq::empty());
    assert(seq!['\''] + Seq::<char>::empty() =~= seq!['\'']);
}

proof fn lemma_quoted(t: Seq<char>, rest: Seq<char>)
    requires
        !has_char(t, '\''),
    ensures
        words_of(seq!['\''] + (t + (seq!['\''] + rest)), None) == words_of(rest, Some(t)),
{
    let tail = t + (seq!['\''] + rest);
    let all = seq!['\''] + tail;
    let n = t.len() as int;
    assert(all.skip(1) =~= tail);
    assert(all[0] == '\'');
    assert forall|i: int| 0 <= i < n implies #[trigger] tail[i] != '\'' by {
        assert(tail[i] == t[i]);
    }
    assert(tail[n] == '\'');
    lemma_index(tail, '\'', n, 0);
    assert(tail.take(n) =~= t);
    assert(tail.skip(n + 1) =~= rest);
    assert(Seq::<char>::empty() + t =~= t);
}

/// After a hash comes the label of the line.
pub proof fn a_hash_begins_the_label(rest: Seq<char>)
    ensures
        words_of(seq!['#'] + rest, None) == Ok::<(Seq<Seq<char>>, Option<Seq<char>>), Seq<char>>(
            (
                Seq::empty(),
                if trimmed(rest).len() == 0 {
                    None
                } else {
                    Some(trimmed(rest))
                },
            ),
        ),
{
    let all = seq!['#'] + rest;
    assert(all.skip(1) =~= rest);
    assert(all[0] == '#');
}

/// Lines of a batch: one without words is passed over and not counted; any
/// other is counted, and is known by its label, or else by its number.
pub proof fn lines_are_counted(inv: BatchView, line: Seq<char>, n: u64)
    requires
        n < u64::MAX,
    ensures
        words_of(line, None) matches Ok((words, label)) ==> {
            &&& words.len() == 0 ==> plan_of(inv, line, n) == (PlanView::Skip, n)
            &&& words.len() > 0 ==> {
                let id = match label {
                    Some(l) => l,
                    None => dec((n + 1) as nat),
                };
                match line_of(words, inv.file, inv.defaults) {
                    Ok(args) => plan_of(inv, line, n) == (PlanView::Run { id, args }, (n + 1) as u64),
                    Err(msg) => plan_of(inv, line, n) == (
                        PlanView::Fail { id, msg },
                        (n + 1) as u64,
                    ),
                }
            }
        },
        words_of(line, None) matches Err(msg) ==> plan_of(inv, line, n) == (
            PlanView::Fail { id: dec((n + 1) as nat), msg },
            (n + 1) as u64,
        ),
{
}

/// A batch has the file and the common options that are written; it takes one
/// file, no command, and no option that no command could take.
pub proof fn a_batch_is_as_written(o: OptionsView)
    ensures
        batch_of(o) matches OutcomeView::Batch(b) ==> {
            &&& o.positionals.len() == 1 && b.file == o.positionals[0]
            &&& b.json == o.json
            &&& b.defaults == o.given
        },
        batch_of(o) is Batch <==> o.positionals.len() == 1 && command_of(o.positionals[0]) is None
            && (o.given.limit matches Some(n) ==> n >= 0) && (o.given.depth matches Some(n) ==> n
            >= 1),
        batch_of(o) is Batch || batch_of(o) is Error,
{
    if o.positionals.len() == 1 {
        assert((exists|i: int|
            0 <= i < o.positionals.len() && command_of(#[trigger] o.positionals[i]) is Some)
            <==> command_of(o.positionals[0]) is Some);
    }
}

/// A command line of its own: `--batch` among the options makes it a batch, and
/// otherwise it is a run, or its failure.
pub proof fn a_line_is_a_run_or_a_batch(argv: Seq<Seq<char>>, o: OptionsView)
    requires
        argv.len() > 0,
        scan(argv, false, false) is Nothing,
        options_of(argv, no_options(), scan(argv, false, false)->batch) == Ok::<
            OptionsView,
            Seq<char>,
        >(o),
    ensures
        o.batch ==> invocation_of(argv) == batch_of(o),
        !o.batch ==> invocation_of(argv) == single_of(o),
{
}

/// Asking for help or for the version, first of all, is answered at once.
pub proof fn help_goes_first(rest: Seq<Seq<char>>)
    ensures
        invocation_of(seq!["--help"@] + rest) == OutcomeView::Print(help_view()),
        invocation_of(seq!["-h"@] + rest) == OutcomeView::Print(help_view()),
        invocation_of(seq!["--version"@] + rest) == OutcomeView::Print("rwave "@ + VERSION@),
        invocation_of(Seq::empty()) == OutcomeView::Print(help_view()),
{
    reveal_strlit("--help");
    reveal_strlit("-h");
    reveal_strlit("--version");
    assert("--help"@.len() != "--version"@.len());
    assert("-h"@.len() != "--version"@.len());
    assert((seq!["--help"@] + rest)[0] == "--help"@);
    assert((seq!["-h"@] + rest)[0] == "-h"@);
    assert((seq!["--version"@] + rest)[0] == "--version"@);
}

} // verus!
