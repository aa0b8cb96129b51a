//! Laws of the command line: where the global switches may stand, and what a
//! line of a batch has in common with an invocation of its own.

use vstd::prelude::*;

use crate::cli::{
    command_of, invocation_of, line_of, merged_options, no_defaults, no_options,
    option_step, options_of, plain_word, scan, single_of, takes_value, with_switch, ArgsView,
    DefaultsView, Found, OptionsView, OutcomeView,
};
use crate::text::has_prefix;

verus! {

/// A switch of every command.
pub open spec fn is_global(g: Seq<char>) -> bool {
    g == "--json"@ || g == "--verbose"@
}

/// An invocation with that switch on.
pub open spec fn switched_on(a: ArgsView, g: Seq<char>) -> ArgsView {
    if g == "--json"@ {
        ArgsView { json: true, ..a }
    } else {
        ArgsView { verbose: true, ..a }
    }
}

spec fn marked(o: OptionsView, g: Seq<char>) -> OptionsView {
    if g == "--json"@ {
        OptionsView { json: true, ..o }
    } else {
        OptionsView { given: DefaultsView { verbose: true, ..o.given }, ..o }
    }
}

/// `--json` and `--verbose` may stand before the sub-command or behind all the
/// other words: either way the invocation is the one without the switch, with
/// the switch on.
pub proof fn globals_go_first_or_last(v: Seq<Seq<char>>, g: Seq<char>)
    requires
        is_global(g),
        invocation_of(v) is Run,
    ensures
        invocation_of(seq![g] + v) == OutcomeView::Run(switched_on(invocation_of(v)->Run_0, g)),
        invocation_of(v + seq![g]) == OutcomeView::Run(switched_on(invocation_of(v)->Run_0, g)),
{
    let none = Seq::<Seq<char>>::empty();
    lemma_run_is_single(v);
    assert(none + v =~= v);
    assert(v + none =~= v);
    assert(none + seq![g] + v =~= seq![g] + v);
    assert(v + seq![g] + none =~= v + seq![g]);
    globals_go_between(none, v, g);
    globals_go_between(v, none, g);
}

/// `--json` and `--verbose` may stand wherever an option ends.
pub proof fn globals_go_between(u: Seq<Seq<char>>, w: Seq<Seq<char>>, g: Seq<char>)
    requires
        is_global(g),
        options_of(u, no_options(), false) is Ok,
        invocation_of(u + w) is Run,
    ensures
        invocation_of(u + seq![g] + w) == OutcomeView::Run(
            switched_on(invocation_of(u + w)->Run_0, g),
        ),
{
    lemma_global_word(g);
    lemma_run_is_single(u + w);
    lemma_scan_between(u, w, g, no_options(), false);
    lemma_options_join(u, w, no_options());
    lemma_options_join(u, seq![g] + w, no_options());
    assert(u + (seq![g] + w) =~= u + seq![g] + w);
    let o = options_of(u, no_options(), false)->Ok_0;
    let rest = seq![g] + w;
    assert(rest[0] == g);
    assert(rest.skip(1) =~= w);
    assert(option_step(rest, o, false) == Ok::<(int, OptionsView), Seq<char>>((1, marked(o, g))));
    assert(options_of(rest, o, false) == options_of(w, marked(o, g), false));
    lemma_options_marked(w, o, g);
    let p = options_of(w, o, false)->Ok_0;
    assert(options_of(u + w, no_options(), false) == Ok::<OptionsView, Seq<char>>(p));
    assert(options_of(u + seq![g] + w, no_options(), false) == Ok::<OptionsView, Seq<char>>(
        marked(p, g),
    ));
}

/// What is known of an invocation that runs a command.
proof fn lemma_run_is_single(v: Seq<Seq<char>>)
    requires
        invocation_of(v) is Run,
    ensures
        scan(v, false, false) == (Found::Nothing { batch: false }),
        options_of(v, no_options(), false) is Ok,
        !options_of(v, no_options(), false)->Ok_0.batch,
        invocation_of(v) == single_of(options_of(v, no_options(), false)->Ok_0),
{
    if scan(v, false, false) == (Found::Nothing { batch: true }) {
        lemma_batch_has_no_command(v, no_options());
    }
}

proof fn lemma_batch_has_no_command(v: Seq<Seq<char>>, acc: OptionsView)
    ensures
        options_of(v, acc, true) matches Ok(o) ==> o.command == acc.command,
    decreases v.len(),
{
    if v.len() > 0 {
        match option_step(v, acc, true) {
            Ok((n, next)) => {
                if 0 < n <= v.len() {
                    lemma_batch_has_no_command(v.skip(n), next);
                }
            },
            Err(_) => {},
        }
    }
}

proof fn lemma_global_word(g: Seq<char>)
    requires
        is_global(g),
    ensures
        !takes_value(g),
        g != "--version"@,
        g != "--help"@,
        g != "-h"@,
        g != "--batch"@,
        forall|acc: OptionsView| with_switch(acc, g) == Some(marked(acc, g)),
{
    reveal_strlit("--json");
    reveal_strlit("--verbose");
    reveal_strlit("--version");
    reveal_strlit("--help");
    reveal_strlit("-h");
    reveal_strlit("--batch");
    reveal_strlit("--limit");
    reveal_strlit("--depth");
    reveal_strlit("--begin");
    reveal_strlit("--end");
    reveal_strlit("--scope");
    reveal_strlit("--filter");
    reveal_strlit("--exclude");
    reveal_strlit("--at");
    reveal_strlit("--condition");
    reveal_strlit("--show");
    reveal_strlit("--of");
    reveal_strlit("--kdb");
    reveal_strlit("--top");
    if g == "--json"@ {
        assert(g[2] == 'j');
    } else {
        assert(g[2] == 'v' && g[5] == 'b');
    }
    assert(g.len() > 2 && "-h"@.len() == 2);
}

/// A switch stands alone.
proof fn lemma_switch_is_alone(tok: Seq<char>, acc: OptionsView)
    requires
        with_switch(acc, tok) is Some,
    ensures
        !takes_value(tok),
{
    reveal_strlit("--json");
    reveal_strlit("--batch");
    reveal_strlit("--verbose");
    reveal_strlit("--exact");
    reveal_strlit("--load");
    reveal_strlit("--control");
    reveal_strlit("--limit");
    reveal_strlit("--depth");
    reveal_strlit("--begin");
    reveal_strlit("--end");
    reveal_strlit("--scope");
    reveal_strlit("--filter");
    reveal_strlit("--exclude");
    reveal_strlit("--at");
    reveal_strlit("--condition");
    reveal_strlit("--show");
    reveal_strlit("--of");
    reveal_strlit("--kdb");
    reveal_strlit("--top");
    assert(tok.len() >= 6);
    assert(tok[2] == 'j' || tok[2] == 'b' || tok[2] == 'v' || (tok[2] == 'e' && tok[3] == 'x') || (
    tok[2] == 'l' && tok[3] == 'o') || tok[2] == 'c');
    assert(tok[2] == 'b' ==> tok[3] == 'a');
    assert(tok[2] == 'c' ==> tok.len() == 9 && tok[5] == 't');
    assert(tok[2] == 'e' ==> tok.len() == 7 && tok[4] == 'a');
}

proof fn lemma_scan_between(
    u: Seq<Seq<char>>,
    w: Seq<Seq<char>>,
    g: Seq<char>,
    acc: OptionsView,
    batch: bool,
)
    requires
        is_global(g),
        options_of(u, acc, false) is Ok,
    ensures
        scan(u + seq![g] + w, false, batch) == scan(u + w, false, batch),
    decreases u.len(),
{
    let all = u + seq![g] + w;
    let less = u + w;
    lemma_global_word(g);
    if u.len() == 0 {
        assert(all[0] == g);
        assert(all.drop_first() =~= w);
        assert(less =~= w);
    } else {
        let (n, next) = option_step(u, acc, false)->Ok_0;
        let tok = u[0];
        assert(all[0] == tok && less[0] == tok);
        let u1 = u.skip(1);
        assert(all.drop_first() =~= u1 + seq![g] + w);
        assert(less.drop_first() =~= u1 + w);
        let b = batch || tok == "--batch"@;
        if takes_value(tok) {
            if with_switch(acc, tok) is Some {
                lemma_switch_is_alone(tok, acc);
            }
            assert(n == 2 && u.len() >= 2);
            let u2 = u.skip(2);
            assert(all.drop_first().drop_first() =~= u2 + seq![g] + w);
            assert(less.drop_first().drop_first() =~= u2 + w);
            lemma_scan_between(u2, w, g, next, b);
            assert(scan(all.drop_first(), true, b) == scan(all.drop_first().drop_first(), false, b));
            assert(scan(less.drop_first(), true, b) == scan(
                less.drop_first().drop_first(),
                false,
                b,
            ));
        } else {
            assert(n == 1);
            lemma_scan_between(u1, w, g, next, b);
        }
    }
}

/// Words that are read whole leave the words behind them to be read on their
/// own.
pub proof fn lemma_options_join(u: Seq<Seq<char>>, w: Seq<Seq<char>>, acc: OptionsView)
    requires
        options_of(u, acc, false) is Ok,
    ensures
        options_of(u + w, acc, false) == options_of(w, options_of(u, acc, false)->Ok_0, false),
    decreases u.len(),
{
    let all = u + w;
    if u.len() == 0 {
        assert(all =~= w);
    } else {
        let step = option_step(u, acc, false);
        let (n, next) = step->Ok_0;
        assert(0 < n <= u.len());
        assert(option_step(all, acc, false) == step) by {
            assert(all[0] == u[0]);
            if u.len() >= 2 {
                assert(all[1] == u[1]);
            }
        }
        assert(all.skip(n) =~= u.skip(n) + w);
        lemma_options_join(u.skip(n), w, next);
    }
}

proof fn lemma_options_marked(w: Seq<Seq<char>>, acc: OptionsView, g: Seq<char>)
    requires
        is_global(g),
    ensures
        match options_of(w, acc, false) {
            Ok(p) => options_of(w, marked(acc, g), false) == Ok::<OptionsView, Seq<char>>(
                marked(p, g),
            ),
            Err(e) => options_of(w, marked(acc, g), false) == Err::<OptionsView, Seq<char>>(e),
        },
    decreases w.len(),
{
    if w.len() > 0 {
        lemma_step_marked(w, acc, g);
        match option_step(w, acc, false) {
            Ok((n, next)) => {
                if 0 < n <= w.len() {
                    lemma_options_marked(w.skip(n), next, g);
                }
            },
            Err(_) => {},
        }
    }
}

proof fn lemma_step_marked(w: Seq<Seq<char>>, acc: OptionsView, g: Seq<char>)
    requires
        is_global(g),
    ensures
        match option_step(w, acc, false) {
            Ok((n, next)) => option_step(w, marked(acc, g), false) == Ok::<
                (int, OptionsView),
                Seq<char>,
            >((n, marked(next, g))),
            Err(e) => option_step(w, marked(acc, g), false) == Err::<
                (int, OptionsView),
                Seq<char>,
            >(e),
        },
{
}

/// The words that say something of the run as a whole.
pub open spec fn is_of_the_run(tok: Seq<char>) -> bool {
    tok == "--json"@ || tok == "--batch"@ || tok == "--version"@ || tok == "--help"@ || tok
        == "-h"@
}

/// A line of a batch means what the same words mean as an invocation of their
/// own, with the file behind the sub-command: it is refused where that is, and
/// otherwise asks for the same.
pub proof fn batch_line_is_its_invocation(c: Seq<char>, opts: Seq<Seq<char>>, file: Seq<char>)
    requires
        !has_prefix(c, "-"@),
        !has_prefix(file, "-"@),
        forall|i: int| 0 <= i < opts.len() ==> !is_of_the_run(#[trigger] opts[i]),
    ensures
        match line_of(seq![c] + opts, file, no_defaults()) {
            Ok(a) => invocation_of(seq![c, file] + opts) == OutcomeView::Run(a),
            Err(_) => invocation_of(seq![c, file] + opts) is Error,
        },
{
    let line = seq![c] + opts;
    let all = seq![c, file] + opts;
    let start = no_options();
    plain_word(c);
    plain_word(file);
    lemma_nothing_found(opts, false);
    assert(all.drop_first().drop_first() =~= opts);
    assert(all[0] == c && all.drop_first()[0] == file);
    assert(scan(all.drop_first(), false, false) == scan(opts, false, false));
    assert(scan(all, false, false) == (Found::Nothing { batch: false }));
    assert(line[0] == c);
    assert(line.skip(1) =~= opts);
    assert(all.skip(1).skip(1) =~= opts);
    assert(all.skip(1)[0] == file);
    match command_of(c) {
        None => {},
        Some(k) => {
            let acc = OptionsView { command: Some(k), ..start };
            assert(options_of(line, start, false) == options_of(opts, acc, false));
            assert(acc.positionals.push(file) =~= seq![file] + acc.positionals);
            assert(options_of(all, start, false) == options_of(all.skip(1), acc, false));
            assert(options_of(all.skip(1), acc, false) == options_of(opts, led(acc, file), false));
            lemma_options_led(opts, acc, file);
            lemma_options_keep(opts, acc);
            match options_of(opts, acc, false) {
                Err(_) => {},
                Ok(o) => {
                    let all_words = seq![file] + o.positionals;
                    assert(merged_options(o.given, no_defaults()) == o.given) by {
                        if o.given.condition.len() == 0 {
                            assert(o.given.condition =~= no_defaults().condition);
                        }
                    }
                    assert(all_words[0] == file);
                    if o.positionals.len() > 0 {
                        assert(all_words[1] == o.positionals[0]);
                    }
                    assert(invocation_of(all) == single_of(led(o, file)));
                },
            }
        },
    }
}

/// The options with one more word in front of the words read so far.
spec fn led(o: OptionsView, file: Seq<char>) -> OptionsView {
    OptionsView { positionals: seq![file] + o.positionals, ..o }
}

proof fn lemma_nothing_found(tokens: Seq<Seq<char>>, skip: bool)
    requires
        forall|i: int| 0 <= i < tokens.len() ==> !is_of_the_run(#[trigger] tokens[i]),
    ensures
        scan(tokens, skip, false) == (Found::Nothing { batch: false }),
    decreases tokens.len(),
{
    if tokens.len() > 0 {
        let rest = tokens.drop_first();
        assert(!is_of_the_run(tokens[0]));
        assert forall|i: int| 0 <= i < rest.len() implies !is_of_the_run(#[trigger] rest[i]) by {
            assert(rest[i] == tokens[i + 1]);
        }
        if skip {
            lemma_nothing_found(rest, false);
        } else {
            lemma_nothing_found(rest, takes_value(tokens[0]));
        }
    }
}

proof fn lemma_options_led(w: Seq<Seq<char>>, acc: OptionsView, file: Seq<char>)
    ensures
        match options_of(w, acc, false) {
            Ok(p) => options_of(w, led(acc, file), false) == Ok::<OptionsView, Seq<char>>(
                led(p, file),
            ),
            Err(e) => options_of(w, led(acc, file), false) == Err::<OptionsView, Seq<char>>(e),
        },
    decreases w.len(),
{
    if w.len() > 0 {
        assert(seq![file] + acc.positionals.push(w[0]) =~= (seq![file] + acc.positionals).push(
            w[0],
        ));
        match option_step(w, acc, false) {
            Ok((n, next)) => {
                assert(option_step(w, led(acc, file), false) == Ok::<
                    (int, OptionsView),
                    Seq<char>,
                >((n, led(next, file))));
                if 0 < n <= w.len() {
                    lemma_options_led(w.skip(n), next, file);
                }
            },
            Err(_) => {},
        }
    }
}

/// Without words on the run as a whole, the options say nothing of it; and a
/// command, once read, stays.
proof fn lemma_options_keep(w: Seq<Seq<char>>, acc: OptionsView)
    requires
        acc.command is Some,
        forall|i: int| 0 <= i < w.len() ==> !is_of_the_run(#[trigger] w[i]),
    ensures
        options_of(w, acc, false) matches Ok(o) ==> o.json == acc.json && o.batch == acc.batch
            && o.command == acc.command,
    decreases w.len(),
{
    if w.len() > 0 {
        assert(!is_of_the_run(w[0]));
        match option_step(w, acc, false) {
            Ok((n, next)) => {
                if 0 < n <= w.len() {
                    let rest = w.skip(n);
                    assert forall|i: int| 0 <= i < rest.len() implies !is_of_the_run(
                        #[trigger] rest[i],
                    ) by {
                        assert(rest[i] == w[i + n]);
                    }
                    lemma_options_keep(rest, next);
                }
            },
            Err(_) => {},
        }
    }
}

} // verus!
