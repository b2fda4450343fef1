//! Properties of the lookup context that hold across calls.
use vstd::prelude::*;
use crate::env_context::{EnvState, env_value, valid_name};
use crate::expand::env_expansion;

verus! {

/// How often `k` occurs in `names`.
pub open spec fn occurrences(names: Seq<Seq<char>>, k: Seq<char>) -> nat
    decreases names.len(),
{
    if names.len() == 0 {
        0
    } else {
        (if names[0] == k {
            1nat
        } else {
            0nat
        }) + occurrences(names.drop_first(), k)
    }
}

/// A count that goes up by `n` and stops at `usize::MAX`.
pub open spec fn count_up(c: int, n: nat) -> usize {
    if c + n > usize::MAX {
        usize::MAX
    } else {
        (c + n) as usize
    }
}

/// Every lookup keeps a context well formed: no name is both found and
/// missing, every missing name was asked for at least once, and only names
/// in scope are recorded.
pub proof fn lemma_lookup_keeps_wf(s: EnvState, k: Seq<char>, process_value: Option<Seq<char>>)
    requires
        s.wf(),
    ensures
        s.after_lookup(k, process_value).wf(),
{
}

/// Looking up a sequence of names keeps a context well formed.
pub proof fn lemma_lookup_all_keeps_wf(s: EnvState, names: Seq<Seq<char>>, env: Map<Seq<char>, Seq<char>>)
    requires
        s.wf(),
    ensures
        s.lookup_all(names, env).wf(),
    decreases names.len(),
{
    if names.len() > 0 {
        lemma_lookup_keeps_wf(s, names[0], env_value(env, names[0]));
        lemma_lookup_all_keeps_wf(s.after_lookup(names[0], env_value(env, names[0])), names.drop_first(), env);
    }
}

/// A value once found is kept: every later lookup of the name answers it,
/// whatever the process environment holds then, and changes nothing.
pub proof fn lemma_found_value_kept(s: EnvState, k: Seq<char>, process_value: Option<Seq<char>>)
    requires
        s.in_scope(k),
        s.found.contains_key(k),
    ensures
        s.answer(k, process_value) == Some(s.found[k]),
        s.after_lookup(k, process_value) == s,
{
}

/// A lookup changes no answer: after it, every name is answered as before,
/// for the same process values. So a text's substitution answers each name
/// as its first lookup did.
pub proof fn lemma_lookup_keeps_answers(
    s: EnvState,
    k: Seq<char>,
    env: Map<Seq<char>, Seq<char>>,
)
    ensures
        s.after_lookup(k, env_value(env, k)).answers(env) == s.answers(env),
{
    let t = s.after_lookup(k, env_value(env, k));
    assert forall|x: Seq<char>| #[trigger] t.answer(x, env_value(env, x)) == s.answer(x, env_value(env, x)) by {
    }
    assert(t.answers(env) =~= s.answers(env));
}

/// Looking up a sequence of names changes no answer.
pub proof fn lemma_lookup_all_keeps_answers(
    s: EnvState,
    names: Seq<Seq<char>>,
    env: Map<Seq<char>, Seq<char>>,
)
    ensures
        s.lookup_all(names, env).answers(env) == s.answers(env),
    decreases names.len(),
{
    if names.len() > 0 {
        let t = s.after_lookup(names[0], env_value(env, names[0]));
        lemma_lookup_keeps_answers(s, names[0], env);
        lemma_lookup_all_keeps_answers(t, names.drop_first(), env);
    }
}

/// With `.env` bindings loaded, the process environment is never consulted:
/// answers, rendered text and recorded state are the same whatever it holds.
pub proof fn lemma_env_file_mode_ignores_process_env(
    s: EnvState,
    template: Seq<char>,
    names: Seq<Seq<char>>,
    env1: Map<Seq<char>, Seq<char>>,
    env2: Map<Seq<char>, Seq<char>>,
)
    requires
        !s.use_real_env,
    ensures
        s.answers(env1) == s.answers(env2),
        env_expansion(template, s.answers(env1)) == env_expansion(template, s.answers(env2)),
        s.lookup_all(names, env1) == s.lookup_all(names, env2),
    decreases names.len(),
{
    assert(s.answers(env1) =~= s.answers(env2));
    if names.len() > 0 {
        let t = s.after_lookup(names[0], env_value(env1, names[0]));
        assert(t == s.after_lookup(names[0], env_value(env2, names[0])));
        lemma_env_file_mode_ignores_process_env(t, template, names.drop_first(), env1, env2);
    }
}

/// A name out of scope is never substituted or recorded.
pub proof fn lemma_out_of_scope_untouched(
    s: EnvState,
    names: Seq<Seq<char>>,
    env: Map<Seq<char>, Seq<char>>,
    k: Seq<char>,
)
    requires
        !s.in_scope(k),
    ensures
        !s.answers(env).contains_key(k),
        s.lookup_all(names, env).found.contains_key(k) == s.found.contains_key(k),
        s.lookup_all(names, env).missing.contains_key(k) == s.missing.contains_key(k),
        s.lookup_all(names, env).scope == s.scope,
    decreases names.len(),
{
    if names.len() > 0 {
        let t = s.after_lookup(names[0], env_value(env, names[0]));
        lemma_out_of_scope_untouched(t, names.drop_first(), env, k);
    }
}

/// A name in scope that has no value is counted once for each time it is
/// asked for, the count stopping at `usize::MAX`; it is never found.
pub proof fn lemma_missing_counted(
    s: EnvState,
    names: Seq<Seq<char>>,
    env: Map<Seq<char>, Seq<char>>,
    k: Seq<char>,
)
    requires
        s.in_scope(k),
        !s.found.contains_key(k),
        s.source(k, env_value(env, k)) is None,
    ensures
        ({
            let before: int = if s.missing.contains_key(k) {
                s.missing[k] as int
            } else {
                0
            };
            let t = s.lookup_all(names, env);
            &&& !t.found.contains_key(k)
            &&& t.missing.contains_key(k) == (s.missing.contains_key(k) || occurrences(names, k) > 0)
            &&& t.missing.contains_key(k) ==> t.missing[k] == count_up(before, occurrences(names, k))
        }),
    decreases names.len(),
{
    if names.len() > 0 {
        let t = s.after_lookup(names[0], env_value(env, names[0]));
        assert(t.source(k, env_value(env, k)) is None);
        lemma_missing_counted(t, names.drop_first(), env, k);
    }
}

/// The state after a sequence of lookups, each with the name asked for and
/// the process environment's value of it at that moment.
pub open spec fn run_lookups(s: EnvState, calls: Seq<(Seq<char>, Option<Seq<char>>)>) -> EnvState
    decreases calls.len(),
{
    if calls.len() == 0 {
        s
    } else {
        run_lookups(s.after_lookup(calls[0].0, calls[0].1), calls.drop_first())
    }
}

/// How many of a sequence of lookups ask for `k` and answer nothing.
pub open spec fn unanswered(s: EnvState, calls: Seq<(Seq<char>, Option<Seq<char>>)>, k: Seq<char>) -> nat
    decreases calls.len(),
{
    if calls.len() == 0 {
        0
    } else {
        (if calls[0].0 == k && s.answer(k, calls[0].1) is None {
            1nat
        } else {
            0nat
        }) + unanswered(s.after_lookup(calls[0].0, calls[0].1), calls.drop_first(), k)
    }
}

/// After any sequence of lookups, with any process values, a name in scope
/// is recorded as missing exactly when it was missing before or some lookup
/// of it answered nothing, and its count is the earlier count plus the
/// number of such lookups, stopping at `usize::MAX`. A fresh context
/// (`EnvContext::new`, `EnvContext::scoped`) starts with nothing missing, so
/// there the count is the number of lookups of the name that answered
/// nothing, and a name never answered so is absent.
pub proof fn lemma_missing_count_of_lookups(
    s: EnvState,
    calls: Seq<(Seq<char>, Option<Seq<char>>)>,
    k: Seq<char>,
)
    requires
        s.wf(),
        s.in_scope(k),
    ensures
        ({
            let before: int = if s.missing.contains_key(k) {
                s.missing[k] as int
            } else {
                0
            };
            let t = run_lookups(s, calls);
            let n = unanswered(s, calls, k);
            &&& t.missing.contains_key(k) == (s.missing.contains_key(k) || n > 0)
            &&& t.missing.contains_key(k) ==> t.missing[k] == count_up(before, n)
        }),
    decreases calls.len(),
{
    if calls.len() > 0 {
        let t = s.after_lookup(calls[0].0, calls[0].1);
        lemma_lookup_keeps_wf(s, calls[0].0, calls[0].1);
        assert(t.in_scope(k));
        lemma_missing_count_of_lookups(t, calls.drop_first(), k);
    }
}

/// In `.env` mode, every value found is the loaded binding of its name.
pub open spec fn found_from_preloaded(s: EnvState) -> bool {
    !s.use_real_env ==> forall|k: Seq<char>| #[trigger] s.found.contains_key(k) ==> s.preloaded.contains_key(k)
        && s.found[k] == s.preloaded[k]
}

/// In `.env` mode, after any sequence of lookups with any process values,
/// every answer is the loaded binding of the name asked for. A fresh
/// context has found nothing, so this holds from its start.
pub proof fn lemma_env_file_mode_answers_preloaded(
    s: EnvState,
    calls: Seq<(Seq<char>, Option<Seq<char>>)>,
    k: Seq<char>,
    process_value: Option<Seq<char>>,
)
    requires
        !s.use_real_env,
        found_from_preloaded(s),
    ensures
        found_from_preloaded(run_lookups(s, calls)),
        run_lookups(s, calls).preloaded == s.preloaded,
        run_lookups(s, calls).answer(k, process_value) matches Some(v) ==> s.preloaded.contains_key(k)
            && v == s.preloaded[k],
    decreases calls.len(),
{
    if calls.len() > 0 {
        let t = s.after_lookup(calls[0].0, calls[0].1);
        assert(found_from_preloaded(t));
        lemma_env_file_mode_answers_preloaded(t, calls.drop_first(), k, process_value);
    }
}

/// A value once found is kept through any sequence of lookups with any
/// process values, and every later lookup of the name answers it.
pub proof fn lemma_found_value_kept_over_lookups(
    s: EnvState,
    calls: Seq<(Seq<char>, Option<Seq<char>>)>,
    k: Seq<char>,
    process_value: Option<Seq<char>>,
)
    requires
        s.in_scope(k),
        s.found.contains_key(k),
    ensures
        run_lookups(s, calls).found.contains_key(k),
        run_lookups(s, calls).found[k] == s.found[k],
        run_lookups(s, calls).answer(k, process_value) == Some(s.found[k]),
    decreases calls.len(),
{
    if calls.len() > 0 {
        let t = s.after_lookup(calls[0].0, calls[0].1);
        assert(t.in_scope(k));
        lemma_found_value_kept_over_lookups(t, calls.drop_first(), k, process_value);
    } else {
        lemma_found_value_kept(s, k, process_value);
    }
}

/// In `.env` mode, a name asked for the first time is answered with its
/// loaded binding, whatever that binding is (the empty string included), and
/// is recorded as found, never as missing; a name without a binding is
/// answered with nothing and recorded as missing once. The process value
/// plays no part.
pub proof fn lemma_env_file_mode_first_lookup(s: EnvState, k: Seq<char>, process_value: Option<Seq<char>>)
    requires
        !s.use_real_env,
        s.in_scope(k),
        !s.found.contains_key(k),
        !s.missing.contains_key(k),
    ensures
        s.preloaded.contains_key(k) ==> {
            &&& s.answer(k, process_value) == Some(s.preloaded[k])
            &&& s.after_lookup(k, process_value).found == s.found.insert(k, s.preloaded[k])
            &&& s.after_lookup(k, process_value).missing == s.missing
        },
        !s.preloaded.contains_key(k) ==> {
            &&& s.answer(k, process_value) is None
            &&& s.after_lookup(k, process_value).found == s.found
            &&& s.after_lookup(k, process_value).missing == s.missing.insert(k, 1)
        },
{
}

/// In real-environment mode, a name asked for the first time is answered
/// with the process value given, the empty string included, and recorded as
/// found; without a process value it is recorded as missing once.
pub proof fn lemma_real_env_first_lookup(s: EnvState, k: Seq<char>, process_value: Option<Seq<char>>)
    requires
        s.use_real_env,
        s.in_scope(k),
        !s.found.contains_key(k),
        !s.missing.contains_key(k),
    ensures
        s.answer(k, process_value) == process_value,
        process_value matches Some(v) ==> s.after_lookup(k, process_value).found == s.found.insert(k, v)
            && s.after_lookup(k, process_value).missing == s.missing,
        process_value is None ==> s.after_lookup(k, process_value).found == s.found && s.after_lookup(
            k,
            process_value,
        ).missing == s.missing.insert(k, 1),
{
}

/// An ASCII letter, upper or lower case, by its code.
pub open spec fn ascii_letter(c: char) -> bool {
    (65 <= (c as u32) <= 90) || (97 <= (c as u32) <= 122)
}

/// An ASCII digit, by its code.
pub open spec fn ascii_digit(c: char) -> bool {
    48 <= (c as u32) <= 57
}

/// Valid scope names are exactly the shell identifiers: every ASCII letter
/// or `_` alone is one, an identifier followed by a letter, digit or `_` is
/// one, and every character of one is a letter, digit or `_`, the first not
/// a digit; the empty text is none.
pub proof fn lemma_valid_names_are_identifiers(s: Seq<char>, c: char)
    ensures
        (ascii_letter(c) || c == '_') ==> valid_name(seq![c]),
        valid_name(s) && (ascii_letter(c) || ascii_digit(c) || c == '_') ==> valid_name(s.push(c)),
        valid_name(s) ==> s.len() > 0 && !ascii_digit(s[0]) && forall|i: int|
            0 <= i < s.len() ==> ascii_letter(#[trigger] s[i]) || ascii_digit(s[i]) || s[i] == '_',
        !valid_name(Seq::<char>::empty()),
{
    if valid_name(s) && (ascii_letter(c) || ascii_digit(c) || c == '_') {
        let t = s.push(c);
        assert forall|i: int| 1 <= i < t.len() implies crate::env_context::is_name_char(#[trigger] t[i]) by {
            if i < s.len() {
                assert(t[i] == s[i]);
            }
        }
    }
    if (ascii_letter(c) || c == '_') {
        assert(seq![c][0] == c);
    }
}

} // verus!
