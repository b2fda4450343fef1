//! Rendering a template: `$VAR`, `${VAR}` and `${VAR:-default}` references
//! are replaced through `shellexpand`, with a lookup context answering for
//! the variables.
use vstd::prelude::*;
use crate::env_context::{EnvContext, env_value, is_name_char};
use crate::paths::{output_path, output_path_of};
use crate::laws::lemma_lookup_all_keeps_wf;
use crate::var_map::VarMap;

verus! {

/// What `shellexpand::env_with_context` makes of `input` when its context
/// answers each name `k` with `values[k]` where `values` holds `k`, and with
/// "not set" otherwise: the expanded text, and the names it asks the context
/// for, in the order in which it asks.
pub uninterp spec fn env_expansion(input: Seq<char>, values: Map<Seq<char>, Seq<char>>) -> (Seq<char>, Seq<Seq<char>>);

/// The template `p${name}q`.
pub open spec fn braced_template(p: Seq<char>, name: Seq<char>, q: Seq<char>) -> Seq<char> {
    p + seq!['$', '{'] + name + seq!['}'] + q
}

/// The template `p${name:-default}q`.
pub open spec fn default_template(p: Seq<char>, name: Seq<char>, default: Seq<char>, q: Seq<char>) -> Seq<
    char,
> {
    p + seq!['$', '{'] + name + seq![':', '-'] + default + seq!['}'] + q
}

/// The template `p$nameq`.
pub open spec fn bare_template(p: Seq<char>, name: Seq<char>, q: Seq<char>) -> Seq<char> {
    p + seq!['$'] + name + q
}

/// A name between braces: not empty, with no `}` and no `:`.
pub open spec fn braced_name(name: Seq<char>) -> bool {
    name.len() > 0 && !name.contains('}') && !name.contains(':')
}

/// A name after a bare `$`: ASCII letters, digits and `_`, not empty.
pub open spec fn bare_name(name: Seq<char>) -> bool {
    name.len() > 0 && forall|i: int| 0 <= i < name.len() ==> is_name_char(#[trigger] name[i])
}

/// Text that may follow a bare `$name`: empty, or starting with an ASCII
/// character that cannot continue a name.
pub open spec fn ends_bare_name(q: Seq<char>) -> bool {
    q.len() == 0 || (!is_name_char(q[0]) && (q[0] as u32) < 128)
}

/// The value of `name` in `values`, or `fallback` where it has none.
pub open spec fn value_or(values: Map<Seq<char>, Seq<char>>, name: Seq<char>, fallback: Seq<char>) -> Seq<char> {
    if values.contains_key(name) {
        values[name]
    } else {
        fallback
    }
}

/// `shellexpand::env_with_context` on `input`, with a context that looks each
/// name up in `ctx` through `EnvContext::lookup_in` (the process
/// environment's values taken from `env`).
///
/// What is claimed of the outside function, as its source shows it: it walks
/// `input` once, asks its context once for the name of each reference it
/// meets, in order, and builds its result from `input` and the answers; a
/// context that never fails makes it never fail; an `input` without `$` comes
/// back as it is, and the context is not asked at all. The result and the sequence
/// of names asked for are named by `env_expansion`, applied to `input` and to
/// the answers of `ctx` (which no lookup changes, see
/// `lemma_lookup_all_keeps_answers`), and `ctx` ends as after looking up that
/// sequence of names. Of the grammar, three plain cases are claimed, as the
/// source's loop shows them for a template whose one reference stands
/// between texts without `$`: `p${name}q` asks for `name` and gives `p`, the
/// value or `${name}` as written, and `q`; `p${name:-d}q` asks for `name` and
/// gives `p`, the value or `d`, and `q`; `p$nameq`, the name made of ASCII
/// letters, digits and `_` and ended by an ASCII character of none of these
/// or by the end, asks for `name` and gives `p`, the value or `$name`, and
/// `q`. Nothing else is claimed of the grammar.
#[verifier::external_body]
fn expand_env(input: &str, ctx: &mut EnvContext, env: &VarMap<String>) -> (res: String)
    ensures
        res@ == env_expansion(input@, old(ctx)@.answers(env@)).0,
        final(ctx)@ == old(ctx)@.lookup_all(env_expansion(input@, old(ctx)@.answers(env@)).1, env@),
        !input@.contains('$') ==> res@ == input@ && env_expansion(input@, old(ctx)@.answers(env@)).1
            == Seq::<Seq<char>>::empty(),
        forall|p: Seq<char>, name: Seq<char>, q: Seq<char>|
            #[trigger] braced_template(p, name, q) == input@ && !p.contains('$') && !q.contains('$')
                && braced_name(name) ==> env_expansion(input@, old(ctx)@.answers(env@)) == (
                p + value_or(old(ctx)@.answers(env@), name, seq!['$', '{'] + name + seq!['}']) + q,
                seq![name],
            ),
        forall|p: Seq<char>, name: Seq<char>, d: Seq<char>, q: Seq<char>|
            #[trigger] default_template(p, name, d, q) == input@ && !p.contains('$') && !q.contains(
                '$',
            ) && braced_name(name) && !d.contains('}') ==> env_expansion(
                input@,
                old(ctx)@.answers(env@),
            ) == (p + value_or(old(ctx)@.answers(env@), name, d) + q, seq![name]),
        forall|p: Seq<char>, name: Seq<char>, q: Seq<char>|
            #[trigger] bare_template(p, name, q) == input@ && !p.contains('$') && !q.contains('$')
                && bare_name(name) && ends_bare_name(q) ==> env_expansion(
                input@,
                old(ctx)@.answers(env@),
            ) == (p + value_or(old(ctx)@.answers(env@), name, seq!['$'] + name) + q, seq![name]),
{
    let expanded = shellexpand::env_with_context(
        input,
        |name: &str| Ok::<Option<String>, std::convert::Infallible>(ctx.lookup_in(name, env)),
    );
    match expanded {
        Ok(text) => text.into_owned(),
        Err(e) => match e.cause {},
    }
}

impl EnvContext {
    /// Substitutes the variables of `template`: each reference is replaced by
    /// the value that this context answers for its name, or by its default
    /// where it has one and the context answers nothing; other references
    /// are left as they are. `process_env` holds the process environment,
    /// which the context reads only when it was made to. Every name looked up
    /// is recorded as `lookup` records it. A template without `$` comes back
    /// unchanged and nothing is recorded. A template whose one reference,
    /// `${name}`, `${name:-d}` or `$name`, stands between texts without `$`
    /// looks `name` up once and gives its value, or else the reference as
    /// written (`d` for the default form), between those texts.
    pub fn substitute(&mut self, template: &str, process_env: &VarMap<String>) -> (res: String)
        ensures
            res@ == env_expansion(template@, old(self)@.answers(process_env@)).0,
            final(self)@ == old(self)@.lookup_all(
                env_expansion(template@, old(self)@.answers(process_env@)).1,
                process_env@,
            ),
            old(self)@.wf() ==> final(self)@.wf(),
            !template@.contains('$') ==> res@ == template@ && final(self)@ == old(self)@,
            forall|p: Seq<char>, name: Seq<char>, q: Seq<char>|
                #[trigger] braced_template(p, name, q) == template@ && !p.contains('$') && !q.contains(
                    '$',
                ) && braced_name(name) ==> res@ == p + value_or(
                    old(self)@.answers(process_env@),
                    name,
                    seq!['$', '{'] + name + seq!['}'],
                ) + q && final(self)@ == old(self)@.after_lookup(name, env_value(process_env@, name)),
            forall|p: Seq<char>, name: Seq<char>, d: Seq<char>, q: Seq<char>|
                #[trigger] default_template(p, name, d, q) == template@ && !p.contains('$')
                    && !q.contains('$') && braced_name(name) && !d.contains('}') ==> res@ == p
                    + value_or(old(self)@.answers(process_env@), name, d) + q && final(self)@ == old(
                    self,
                )@.after_lookup(name, env_value(process_env@, name)),
            forall|p: Seq<char>, name: Seq<char>, q: Seq<char>|
                #[trigger] bare_template(p, name, q) == template@ && !p.contains('$') && !q.contains('$')
                    && bare_name(name) && ends_bare_name(q) ==> res@ == p + value_or(
                    old(self)@.answers(process_env@),
                    name,
                    seq!['$'] + name,
                ) + q && final(self)@ == old(self)@.after_lookup(name, env_value(process_env@, name)),
    {
        let res = expand_env(template, self, process_env);
        proof {
            assert forall|name: Seq<char>|
                #[trigger] old(self)@.lookup_all(seq![name], process_env@) == old(self)@.after_lookup(
                    name,
                    env_value(process_env@, name),
                ) by {
                let t = old(self)@.after_lookup(name, env_value(process_env@, name));
                assert(seq![name].drop_first() =~= Seq::<Seq<char>>::empty());
                assert(t.lookup_all(Seq::<Seq<char>>::empty(), process_env@) == t);
            }
            if old(self)@.wf() {
                lemma_lookup_all_keeps_wf(
                    old(self)@,
                    env_expansion(template@, old(self)@.answers(process_env@)).1,
                    process_env@,
                );
            }
        }
        res
    }
}

/// A rendered file: its text, and the path it is written to, or `None` for
/// standard output.
pub struct Rendered {
    pub text: String,
    pub destination: Option<String>,
}

/// Renders the file at `path`, whose text is `contents` and which a pattern
/// with the glob base `base` matched: the text with its variables
/// substituted by `ctx`, to be written to the mirrored path under
/// `output_dir`, or to standard output where there is no output directory.
pub fn process_file(
    contents: &str,
    path: &str,
    base: &str,
    output_dir: Option<&str>,
    ctx: &mut EnvContext,
    process_env: &VarMap<String>,
) -> (res: Rendered)
    ensures
        res.text@ == env_expansion(contents@, old(ctx)@.answers(process_env@)).0,
        final(ctx)@ == old(ctx)@.lookup_all(
            env_expansion(contents@, old(ctx)@.answers(process_env@)).1,
            process_env@,
        ),
        old(ctx)@.wf() ==> final(ctx)@.wf(),
        match output_dir {
            Some(dir) => res.destination matches Some(d) && d@ == output_path_of(path@, base@, dir@),
            None => res.destination is None,
        },
{
    let text = ctx.substitute(contents, process_env);
    let destination = match output_dir {
        Some(dir) => Some(output_path(path, base, dir)),
        None => None,
    };
    Rendered { text, destination }
}

} // verus!
