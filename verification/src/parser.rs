use crate::envmap::{lemma_map_of_push, map_of, EnvMap};
use crate::exception::Exception;
use crate::lexer::{
    lex_name_x, lex_value_x, normalize, parsed_pairs, replace2_x, skip_lines_x, stmts, ErrKind,
};
use crate::text::{chars_eq, to_chars};
use vstd::prelude::*;
use vstd::string::StringExecFns;

verus! {

// ---------------------------------------------------------------------------
// Error messages.
// ---------------------------------------------------------------------------
/// The message reported for each kind of grammar violation.
pub open spec fn message_of(k: ErrKind) -> Seq<char> {
    match k {
        ErrKind::InvalidName => "Invalid character in variable name"@,
        ErrKind::UnsetWithoutValue => "Unable to unset an environment variable"@,
        ErrKind::MissingEquals => "Missing = in the environment variable declaration"@,
        ErrKind::WhitespaceAfterName => "Whitespace characters are not supported after the variable name"@,
        ErrKind::WhitespaceBeforeValue => "Whitespace are not supported before the value"@,
        ErrKind::MissingQuote => "Missing quote to end the value"@,
        ErrKind::WhitespaceInBareValue => "A value containing spaces must be surrounded by quotes"@,
    }
}

fn message_string(k: ErrKind) -> (r: String)
    ensures
        r@ == message_of(k),
{
    match k {
        ErrKind::InvalidName => String::from_str("Invalid character in variable name"),
        ErrKind::UnsetWithoutValue => String::from_str("Unable to unset an environment variable"),
        ErrKind::MissingEquals => String::from_str(
            "Missing = in the environment variable declaration",
        ),
        ErrKind::WhitespaceAfterName => String::from_str(
            "Whitespace characters are not supported after the variable name",
        ),
        ErrKind::WhitespaceBeforeValue => String::from_str(
            "Whitespace are not supported before the value",
        ),
        ErrKind::MissingQuote => String::from_str("Missing quote to end the value"),
        ErrKind::WhitespaceInBareValue => String::from_str(
            "A value containing spaces must be surrounded by quotes",
        ),
    }
}

/// Whether the exception is the `FormatException` that reports the
/// violation `k` in the file `path`.
pub open spec fn err_matches(e: Exception, k: (ErrKind, int), path: Seq<char>) -> bool {
    e matches Exception::FormatException(m, p, l) && m@ == message_of(k.0) && p@ == path && l
        as int == k.1
}

// ---------------------------------------------------------------------------
// The meaning of `parse`.
// ---------------------------------------------------------------------------
/// What parsing a buffer yields: the mapping of its name/value pairs, a
/// name that recurs overwriting its earlier value, or the first grammar
/// violation with its line.
pub open spec fn spec_parse(data: Seq<char>) -> Result<Map<Seq<char>, Seq<char>>, (ErrKind, int)> {
    match parsed_pairs(data) {
        Ok(ps) => Ok(map_of(ps)),
        Err(e) => Err(e),
    }
}

/// Glues the statements already read to the meaning of the rest of the
/// buffer.
pub open spec fn combine(
    done: Seq<(Seq<char>, Seq<char>)>,
    r: Result<Seq<(Seq<char>, Seq<char>)>, (ErrKind, int)>,
) -> Result<Seq<(Seq<char>, Seq<char>)>, (ErrKind, int)> {
    match r {
        Ok(rest) => Ok(done + rest),
        Err(e) => Err(e),
    }
}

/// Parsing never depends on anything but the buffer: two parses of equal
/// buffers yield identical mappings.
pub proof fn lemma_parse_deterministic(
    data1: Seq<char>,
    data2: Seq<char>,
    m1: Map<Seq<char>, Seq<char>>,
    m2: Map<Seq<char>, Seq<char>>,
)
    requires
        data1 == data2,
        spec_parse(data1) == Ok::<Map<Seq<char>, Seq<char>>, (ErrKind, int)>(m1),
        spec_parse(data2) == Ok::<Map<Seq<char>, Seq<char>>, (ErrKind, int)>(m2),
    ensures
        m1 == m2,
{
}

// ---------------------------------------------------------------------------
// The loader.
// ---------------------------------------------------------------------------
/// Dotenv file loader: parses `.env`-style buffers and populates an
/// environment mapping with the result.
pub struct Dotenv {}

impl Dotenv {
    /// Creates a new instance of the loader.
    pub fn new() -> (r: Dotenv) {
        Dotenv {}
    }

    /// Parses one buffer into a mapping of variable names to values, or
    /// reports the first grammar violation, located in `path`.
    ///
    /// The result is a pure function of `data`: the loader holds no state
    /// across calls.
    pub fn parse(&mut self, data: &str, path: &str) -> (r: Result<EnvMap, Exception>)
        requires
            data@.len() < usize::MAX,
        ensures
            match r {
                Ok(m) => {
                    &&& spec_parse(data@) is Ok
                    &&& m@ == spec_parse(data@)->Ok_0
                    &&& m.wf()
                },
                Err(e) => {
                    &&& spec_parse(data@) is Err
                    &&& err_matches(e, spec_parse(data@)->Err_0, path@)
                },
            },
    {
        let raw = to_chars(data);
        let s = replace2_x(&raw, '\r', '\n', '\n');
        proof {
            crate::lexer::lemma_replace2_len(raw@, '\r', '\n', '\n');
            assert(s@ == normalize(data@));
        }
        let ghost sv = s@;
        let mut m = EnvMap::new();
        let start = skip_lines_x(&s, 0);
        let mut i = start;
        let ghost full = stmts(sv, start as int);
        let ghost mut done: Seq<(Seq<char>, Seq<char>)> = Seq::empty();
        proof {
            assert(map_of(done) =~= Map::<Seq<char>, Seq<char>>::empty());
            if stmts(sv, i as int) is Ok {
                assert(done + stmts(sv, i as int)->Ok_0 =~= stmts(sv, i as int)->Ok_0);
            }
        }
        while i < s.len()
            invariant
                i <= s@.len(),
                s@ == sv,
                sv == normalize(data@),
                sv.len() < usize::MAX,
                m@ == map_of(done),
                m.wf(),
                full == parsed_pairs(data@),
                full == combine(done, stmts(sv, i as int)),
            decreases s@.len() - i,
        {
            match lex_name_x(&s, i) {
                Err(e) => {
                    proof {
                        assert(stmts(sv, i as int) == Err::<Seq<(Seq<char>, Seq<char>)>, (
                            ErrKind,
                            int,
                        )>((e.0, e.1 as int)));
                    }
                    let msg = message_string(e.0);
                    let p = String::from_str(path);
                    return Err(Exception::FormatException(msg, p, e.1));
                },
                Ok(n) => {
                    let (name, vp) = n;
                    let ghost nm = name@;
                    if vp == s.len() {
                        // the buffer ended right after this name's `=` (or
                        // the name itself ended the buffer): bind it empty
                        let ghost done0 = done;
                        let empty_v: Vec<char> = Vec::new();
                        m.insert_chars(name, empty_v);
                        proof {
                            done = done.push((nm, Seq::<char>::empty()));
                            lemma_map_of_push(done0, (nm, Seq::<char>::empty()));
                            assert(stmts(sv, i as int) == Ok::<Seq<(Seq<char>, Seq<char>)>, (
                                ErrKind,
                                int,
                            )>(seq![(nm, Seq::<char>::empty())]));
                            assert(done0 + seq![(nm, Seq::<char>::empty())] =~= done);
                            assert(stmts(sv, vp as int) == Ok::<Seq<(Seq<char>, Seq<char>)>, (
                                ErrKind,
                                int,
                            )>(Seq::<(Seq<char>, Seq<char>)>::empty()));
                            assert(done + Seq::<(Seq<char>, Seq<char>)>::empty() =~= done);
                        }
                        i = vp;
                    } else {
                        match lex_value_x(&s, vp) {
                            Err(e) => {
                                proof {
                                    assert(stmts(sv, i as int) == Err::<Seq<
                                        (Seq<char>, Seq<char>),
                                    >, (ErrKind, int)>((e.0, e.1 as int)));
                                }
                                let msg = message_string(e.0);
                                let p = String::from_str(path);
                                return Err(Exception::FormatException(msg, p, e.1));
                            },
                            Ok(v) => {
                                let (val, np) = v;
                                let ghost vl = val@;
                                let ghost done0 = done;
                                m.insert_chars(name, val);
                                proof {
                                    done = done.push((nm, vl));
                                    lemma_map_of_push(done0, (nm, vl));
                                    match stmts(sv, np as int) {
                                        Ok(rest) => {
                                            assert(stmts(sv, i as int) == Ok::<Seq<
                                                (Seq<char>, Seq<char>),
                                            >, (ErrKind, int)>(seq![(nm, vl)] + rest));
                                            assert(done0 + (seq![(nm, vl)] + rest) =~= done
                                                + rest);
                                        },
                                        Err(e2) => {
                                            assert(stmts(sv, i as int) == Err::<Seq<
                                                (Seq<char>, Seq<char>),
                                            >, (ErrKind, int)>(e2));
                                        },
                                    }
                                }
                                i = np;
                            },
                        }
                    }
                },
            }
        }
        proof {
            assert(i == sv.len());
            assert(stmts(sv, i as int) == Ok::<Seq<(Seq<char>, Seq<char>)>, (ErrKind, int)>(
                Seq::<(Seq<char>, Seq<char>)>::empty(),
            ));
            assert(done + Seq::<(Seq<char>, Seq<char>)>::empty() =~= done);
            assert(full == Ok::<Seq<(Seq<char>, Seq<char>)>, (ErrKind, int)>(done));
        }
        Ok(m)
    }

    /// Parses `data` (read from `path`) and writes the resulting bindings
    /// into `env`, leaving alone every name that `env` already binds.  On a
    /// grammar violation nothing is written.
    pub fn load(&mut self, data: &str, path: &str, env: &mut EnvMap) -> (r: Result<(), Exception>)
        requires
            data@.len() < usize::MAX,
            old(env).wf(),
        ensures
            final(env).wf(),
            match r {
                Ok(()) => {
                    &&& spec_parse(data@) is Ok
                    &&& final(env)@ == spec_parse(data@)->Ok_0.union_prefer_right(old(env)@)
                },
                Err(e) => {
                    &&& spec_parse(data@) is Err
                    &&& err_matches(e, spec_parse(data@)->Err_0, path@)
                    &&& final(env)@ == old(env)@
                },
            },
    {
        let values = match self.parse(data, path) {
            Ok(v) => v,
            Err(e) => {
                return Err(e);
            },
        };
        values.populate_into(env, false);
        proof {
            assert(env@ =~= values@.union_prefer_right(old(env)@));
        }
        Ok(())
    }

    /// Parses `data` (read from `path`) and writes every resulting binding
    /// into `env`, overwriting bindings already present.  On a grammar
    /// violation nothing is written.
    pub fn overload(&mut self, data: &str, path: &str, env: &mut EnvMap) -> (r: Result<
        (),
        Exception,
    >)
        requires
            data@.len() < usize::MAX,
            old(env).wf(),
        ensures
            final(env).wf(),
            match r {
                Ok(()) => {
                    &&& spec_parse(data@) is Ok
                    &&& final(env)@ == old(env)@.union_prefer_right(spec_parse(data@)->Ok_0)
                },
                Err(e) => {
                    &&& spec_parse(data@) is Err
                    &&& err_matches(e, spec_parse(data@)->Err_0, path@)
                    &&& final(env)@ == old(env)@
                },
            },
    {
        let values = match self.parse(data, path) {
            Ok(v) => v,
            Err(e) => {
                return Err(e);
            },
        };
        values.populate_into(env, true);
        proof {
            assert(env@ =~= old(env)@.union_prefer_right(values@));
        }
        Ok(())
    }

    /// Loads the first tier of a hierarchy: the base file and its `.local`
    /// override, either of which may be absent (`None`).  Their bindings are
    /// merged, the local file winning, and written into `env`, overwriting
    /// what is already there.  The first grammar violation aborts the load
    /// with nothing written.
    pub fn load_env_defaults(
        &mut self,
        base_data: Option<&str>,
        base_path: &str,
        local_data: Option<&str>,
        local_path: &str,
        env: &mut EnvMap,
    ) -> (r: Result<(), Exception>)
        requires
            old(env).wf(),
            base_data matches Some(d) ==> d@.len() < usize::MAX,
            local_data matches Some(d) ==> d@.len() < usize::MAX,
        ensures
            final(env).wf(),
            match r {
                Ok(()) => {
                    &&& opt_parse(view_opt(base_data)) is Ok
                    &&& opt_parse(view_opt(local_data)) is Ok
                    &&& final(env)@ == old(env)@.union_prefer_right(
                        opt_parse(view_opt(base_data))->Ok_0.union_prefer_right(
                            opt_parse(view_opt(local_data))->Ok_0,
                        ),
                    )
                },
                Err(e) => {
                    &&& final(env)@ == old(env)@
                    &&& if opt_parse(view_opt(base_data)) is Err {
                        err_matches(e, opt_parse(view_opt(base_data))->Err_0, base_path@)
                    } else {
                        opt_parse(view_opt(local_data)) is Err && err_matches(
                            e,
                            opt_parse(view_opt(local_data))->Err_0,
                            local_path@,
                        )
                    }
                },
            },
    {
        let mut values = EnvMap::new();
        match base_data {
            Some(d) => {
                match self.parse(d, base_path) {
                    Ok(m) => {
                        m.populate_into(&mut values, true);
                    },
                    Err(e) => {
                        return Err(e);
                    },
                }
            },
            None => {},
        }
        proof {
            assert(values@ =~= opt_parse(view_opt(base_data))->Ok_0);
        }
        let ghost base_m = values@;
        match local_data {
            Some(d) => {
                match self.parse(d, local_path) {
                    Ok(m) => {
                        m.populate_into(&mut values, true);
                    },
                    Err(e) => {
                        return Err(e);
                    },
                }
            },
            None => {},
        }
        proof {
            assert(values@ =~= base_m.union_prefer_right(opt_parse(view_opt(local_data))->Ok_0));
        }
        values.populate_into(env, true);
        proof {
            assert(env@ =~= old(env)@.union_prefer_right(values@));
        }
        Ok(())
    }

    /// Loads the second, environment-specific tier of a hierarchy: the file
    /// of the named environment and its `.local` override, merged the same
    /// way.  When the environment is `local` the whole tier is skipped.
    pub fn load_env_specific(
        &mut self,
        environment: &str,
        env_data: Option<&str>,
        env_path: &str,
        env_local_data: Option<&str>,
        env_local_path: &str,
        env: &mut EnvMap,
    ) -> (r: Result<(), Exception>)
        requires
            old(env).wf(),
            env_data matches Some(d) ==> d@.len() < usize::MAX,
            env_local_data matches Some(d) ==> d@.len() < usize::MAX,
        ensures
            final(env).wf(),
            environment@ == "local"@ ==> r is Ok && final(env)@ == old(env)@,
            environment@ != "local"@ ==> match r {
                Ok(()) => {
                    &&& opt_parse(view_opt(env_data)) is Ok
                    &&& opt_parse(view_opt(env_local_data)) is Ok
                    &&& final(env)@ == old(env)@.union_prefer_right(
                        opt_parse(view_opt(env_data))->Ok_0.union_prefer_right(
                            opt_parse(view_opt(env_local_data))->Ok_0,
                        ),
                    )
                },
                Err(e) => {
                    &&& final(env)@ == old(env)@
                    &&& if opt_parse(view_opt(env_data)) is Err {
                        err_matches(e, opt_parse(view_opt(env_data))->Err_0, env_path@)
                    } else {
                        opt_parse(view_opt(env_local_data)) is Err && err_matches(
                            e,
                            opt_parse(view_opt(env_local_data))->Err_0,
                            env_local_path@,
                        )
                    }
                },
            },
    {
        let ec = to_chars(environment);
        let lc = to_chars("local");
        if chars_eq(&ec, &lc) {
            return Ok(());
        }
        self.load_env_defaults(env_data, env_path, env_local_data, env_local_path, env)
    }
}

/// The environment selected by `env_key`: its binding in `env` where it has
/// one, the given default otherwise.
pub fn resolve_environment(env: &EnvMap, env_key: &str, default_env: &str) -> (r: String)
    requires
        env.wf(),
    ensures
        r@ == if env@.contains_key(env_key@) {
            env@[env_key@]
        } else {
            default_env@
        },
{
    match env.get(env_key) {
        Some(v) => v,
        None => String::from_str(default_env),
    }
}

/// The buffer an optional file holds.
pub open spec fn view_opt(d: Option<&str>) -> Option<Seq<char>> {
    match d {
        Some(s) => Some(s@),
        None => None,
    }
}

/// What parsing an optional file yields: an absent file binds nothing.
pub open spec fn opt_parse(d: Option<Seq<char>>) -> Result<
    Map<Seq<char>, Seq<char>>,
    (ErrKind, int),
> {
    match d {
        Some(t) => spec_parse(t),
        None => Ok(Map::<Seq<char>, Seq<char>>::empty()),
    }
}

} // verus!
