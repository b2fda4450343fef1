//! The lookup context: where variables are found (the process environment or
//! the bindings loaded from `.env` files), the values already found, and the
//! names that were asked for and not found, with how often each was asked for.
use vstd::prelude::*;
use crate::var_map::{VarMap, string_views};

verus! {

/// A first character of a variable name: an ASCII letter or `_`.
pub open spec fn is_name_start(c: char) -> bool {
    ('a' <= c <= 'z') || ('A' <= c <= 'Z') || c == '_'
}

/// A later character of a variable name: an ASCII letter or digit, or `_`.
pub open spec fn is_name_char(c: char) -> bool {
    is_name_start(c) || ('0' <= c <= '9')
}

/// A variable name that a scope may list: a letter or `_`, then letters,
/// digits and `_`.
pub open spec fn valid_name(s: Seq<char>) -> bool {
    s.len() > 0 && is_name_start(s[0]) && forall|i: int| 1 <= i < s.len() ==> is_name_char(#[trigger] s[i])
}

/// Whether `name` is a valid variable name.
pub fn is_valid_name(name: &str) -> (res: bool)
    ensures
        res == valid_name(name@),
{
    let chars = crate::text::chars_of(name);
    let n = chars.len();
    if n == 0 {
        return false;
    }
    let c0 = chars[0];
    if !(('a' <= c0 && c0 <= 'z') || ('A' <= c0 && c0 <= 'Z') || c0 == '_') {
        return false;
    }
    let mut i: usize = 1;
    while i < n
        invariant
            n == chars@.len(),
            chars@ == name@,
            1 <= i <= n,
            forall|j: int| 1 <= j < i ==> is_name_char(#[trigger] chars@[j]),
        decreases n - i,
    {
        let c = chars[i];
        if !(('a' <= c && c <= 'z') || ('A' <= c && c <= 'Z') || c == '_' || ('0' <= c && c <= '9')) {
            return false;
        }
        i = i + 1;
    }
    true
}

/// The set of names that a context substitutes; other names are left alone.
pub struct Scope {
    names: VarMap<()>,
}

impl View for Scope {
    type V = Set<Seq<char>>;

    closed spec fn view(&self) -> Set<Seq<char>> {
        self.names@.dom()
    }
}

impl Scope {
    /// The scope of the given names. Fails with the first name that is not a
    /// valid variable name.
    pub fn new(names: Vec<String>) -> (res: Result<Scope, String>)
        ensures
            match res {
                Ok(scope) => (forall|i: int| 0 <= i < names@.len() ==> valid_name(#[trigger] names@[i]@))
                    && scope@ == string_views(names@).to_set(),
                Err(bad) => exists|i: int|
                    0 <= i < names@.len() && names@[i]@ == bad@ && !valid_name(bad@) && forall|j: int|
                        0 <= j < i ==> valid_name(#[trigger] names@[j]@),
            },
    {
        let mut set: VarMap<()> = VarMap::new();
        let mut i: usize = 0;
        let n = names.len();
        while i < n
            invariant
                n == names@.len(),
                0 <= i <= n,
                forall|j: int| 0 <= j < i ==> valid_name(#[trigger] names@[j]@),
                set@.dom() == string_views(names@.take(i as int)).to_set(),
            decreases n - i,
        {
            if !is_valid_name(names[i].as_str()) {
                return Err(names[i].clone());
            }
            set.insert(names[i].clone(), ());
            proof {
                assert(string_views(names@.take(i + 1)) =~= string_views(names@.take(i as int)).push(
                    names@[i as int]@,
                ));
                string_views(names@.take(i as int)).lemma_push_to_set_commute(names@[i as int]@);
                assert(string_views(names@.take(i + 1)).to_set() =~= string_views(
                    names@.take(i as int),
                ).to_set().insert(names@[i as int]@));
                assert(set@.dom() =~= string_views(names@.take(i + 1)).to_set());
            }
            i = i + 1;
        }
        proof {
            assert(names@.take(n as int) =~= names@);
        }
        Ok(Scope { names: set })
    }

    /// Whether `name` is in the scope.
    pub fn contains(&self, name: &str) -> (res: bool)
        ensures
            res == self@.contains(name@),
    {
        self.names.contains_key(name)
    }
}

/// What a context knows, as mathematical values.
pub struct EnvState {
    /// The values found so far, by name.
    pub found: Map<Seq<char>, Seq<char>>,
    /// The names asked for and not found, with the number of times each was
    /// asked for.
    pub missing: Map<Seq<char>, usize>,
    /// The bindings loaded from `.env` files.
    pub preloaded: Map<Seq<char>, Seq<char>>,
    /// Whether values come from the process environment rather than from
    /// the loaded bindings.
    pub use_real_env: bool,
    /// The names that are substituted, or `None` for all names.
    pub scope: Option<Set<Seq<char>>>,
}

/// The characters of an optional string.
pub open spec fn opt_chars(o: Option<String>) -> Option<Seq<char>> {
    match o {
        Some(s) => Some(s@),
        None => None,
    }
}

/// The value of `name` in an environment, if it has one.
pub open spec fn env_value(env: Map<Seq<char>, Seq<char>>, name: Seq<char>) -> Option<Seq<char>> {
    if env.contains_key(name) {
        Some(env[name])
    } else {
        None
    }
}

impl EnvState {
    /// Whether `name` is substituted at all.
    pub open spec fn in_scope(self, name: Seq<char>) -> bool {
        match self.scope {
            Some(s) => s.contains(name),
            None => true,
        }
    }

    /// Where a value is first sought: the process environment's value, or
    /// the loaded bindings.
    pub open spec fn source(self, name: Seq<char>, process_value: Option<Seq<char>>) -> Option<
        Seq<char>,
    > {
        if self.use_real_env {
            process_value
        } else {
            env_value(self.preloaded, name)
        }
    }

    /// What a lookup of `name` answers.
    pub open spec fn answer(self, name: Seq<char>, process_value: Option<Seq<char>>) -> Option<
        Seq<char>,
    > {
        if !self.in_scope(name) {
            None
        } else if self.found.contains_key(name) {
            Some(self.found[name])
        } else if self.missing.contains_key(name) {
            None
        } else {
            self.source(name, process_value)
        }
    }

    /// The state after a lookup of `name`.
    pub open spec fn after_lookup(self, name: Seq<char>, process_value: Option<Seq<char>>) -> EnvState {
        if !self.in_scope(name) || self.found.contains_key(name) {
            self
        } else if self.missing.contains_key(name) {
            EnvState {
                missing: self.missing.insert(name, self.missing[name].saturating_add(1)),
                ..self
            }
        } else {
            match self.source(name, process_value) {
                Some(v) => EnvState { found: self.found.insert(name, v), ..self },
                None => EnvState { missing: self.missing.insert(name, 1), ..self },
            }
        }
    }

    /// The state after looking up each of `names` in turn, process values
    /// taken from `env`.
    pub open spec fn lookup_all(self, names: Seq<Seq<char>>, env: Map<Seq<char>, Seq<char>>) -> EnvState
        decreases names.len(),
    {
        if names.len() == 0 {
            self
        } else {
            self.after_lookup(names[0], env_value(env, names[0])).lookup_all(names.drop_first(), env)
        }
    }

    /// The value that a lookup of each name answers, process values taken
    /// from `env`.
    pub open spec fn answers(self, env: Map<Seq<char>, Seq<char>>) -> Map<Seq<char>, Seq<char>> {
        Map::new(
            |k: Seq<char>| self.answer(k, env_value(env, k)) is Some,
            |k: Seq<char>| self.answer(k, env_value(env, k))->0,
        )
    }

    /// No name is both found and missing, each missing name was asked for at
    /// least once, and only names in scope are recorded.
    pub open spec fn wf(self) -> bool {
        &&& forall|k: Seq<char>| #[trigger] self.found.contains_key(k) ==> !self.missing.contains_key(k) && self.in_scope(k)
        &&& forall|k: Seq<char>| #[trigger] self.missing.contains_key(k) ==> self.missing[k] >= 1 && self.in_scope(k)
    }
}

/// An environment variable lookup context. Values found are remembered, so
/// that a name keeps the value it was first found with; names not found are
/// counted each time they are asked for.
pub struct EnvContext {
    found: VarMap<String>,
    missing: VarMap<usize>,
    preloaded: VarMap<String>,
    use_real_env: bool,
    scope: Option<Scope>,
}

impl View for EnvContext {
    type V = EnvState;

    closed spec fn view(&self) -> EnvState {
        EnvState {
            found: self.found@,
            missing: self.missing@,
            preloaded: self.preloaded@,
            use_real_env: self.use_real_env,
            scope: match self.scope {
                Some(s) => Some(s@),
                None => None,
            },
        }
    }
}

impl EnvContext {
    /// A context that looks variables up in the process environment when
    /// `use_real_env` holds, and in `preloaded` otherwise.
    pub fn new(preloaded: VarMap<String>, use_real_env: bool) -> (res: Self)
        ensures
            res@ == (EnvState {
                found: Map::empty(),
                missing: Map::empty(),
                preloaded: preloaded@,
                use_real_env,
                scope: None,
            }),
            res@.wf(),
    {
        EnvContext {
            found: VarMap::new(),
            missing: VarMap::new(),
            preloaded,
            use_real_env,
            scope: None,
        }
    }

    /// A context like `new` that substitutes only the names of `scope`.
    pub fn scoped(preloaded: VarMap<String>, use_real_env: bool, scope: Scope) -> (res: Self)
        ensures
            res@ == (EnvState {
                found: Map::empty(),
                missing: Map::empty(),
                preloaded: preloaded@,
                use_real_env,
                scope: Some(scope@),
            }),
            res@.wf(),
    {
        EnvContext {
            found: VarMap::new(),
            missing: VarMap::new(),
            preloaded,
            use_real_env,
            scope: Some(scope),
        }
    }

    /// Whether `name` is substituted by this context.
    fn in_scope(&self, name: &str) -> (res: bool)
        ensures
            res == self@.in_scope(name@),
    {
        match &self.scope {
            Some(s) => s.contains(name),
            None => true,
        }
    }

    /// Looks `key` up. `process_value` is the process environment's value
    /// of `key`, consulted only when the context reads the real environment
    /// and `key` was not asked for before. A name out of scope is never
    /// substituted or recorded; a name found before keeps its first value; a
    /// name missing before stays missing and its count goes up by one; a
    /// new name is recorded as found or as missing once.
    pub fn lookup(&mut self, key: &str, process_value: Option<String>) -> (res: Option<String>)
        ensures
            opt_chars(res) == old(self)@.answer(key@, opt_chars(process_value)),
            final(self)@ == old(self)@.after_lookup(key@, opt_chars(process_value)),
            old(self)@.wf() ==> final(self)@.wf(),
    {
        if !self.in_scope(key) {
            return None;
        }
        match self.found.get(key) {
            Some(v) => {
                return Some(v.clone());
            },
            None => {},
        }
        match self.missing.get(key) {
            Some(count) => {
                let next = (*count).saturating_add(1);
                self.missing.insert(key.to_owned(), next);
                return None;
            },
            None => {},
        }
        let value = if self.use_real_env {
            process_value
        } else {
            match self.preloaded.get(key) {
                Some(v) => Some(v.clone()),
                None => None,
            }
        };
        match value {
            Some(v) => {
                self.found.insert(key.to_owned(), v.clone());
                Some(v)
            },
            None => {
                self.missing.insert(key.to_owned(), 1);
                None
            },
        }
    }

    /// Looks `key` up, the process environment's value taken from `env`.
    pub fn lookup_in(&mut self, key: &str, env: &VarMap<String>) -> (res: Option<String>)
        ensures
            opt_chars(res) == old(self)@.answer(key@, env_value(env@, key@)),
            final(self)@ == old(self)@.after_lookup(key@, env_value(env@, key@)),
            old(self)@.wf() ==> final(self)@.wf(),
    {
        let process_value = match env.get(key) {
            Some(v) => Some(v.clone()),
            None => None,
        };
        self.lookup(key, process_value)
    }

    /// Whether some name was asked for and not found.
    pub fn has_unresolved(&self) -> (res: bool)
        ensures
            res == (self@.missing.len() > 0),
    {
        !self.missing.is_empty()
    }

    /// The names asked for and not found, with how often each was asked for.
    pub fn missing_vars(&self) -> (res: VarMap<usize>)
        ensures
            res@ == self@.missing,
    {
        self.missing.duplicate()
    }
}

} // verus!
