use vstd::prelude::*;

use crate::json::parser::{char_digit, digits_val, is_digit, str_to_chars};

verus! {

/// How many characters before the first equals sign, starting at `i`.
pub open spec fn eq_free_count(s: Seq<char>, i: int) -> int
    decreases s.len() - i,
{
    if i < 0 || i >= s.len() || s[i] == '=' {
        0
    } else {
        1 + eq_free_count(s, i + 1)
    }
}

/// The option text split at its first equals sign: the key before it
/// and the value after it, or nothing where no equals sign occurs.
pub open spec fn split_eq(s: Seq<char>) -> Option<(Seq<char>, Seq<char>)> {
    let j = eq_free_count(s, 0);
    if j >= s.len() {
        Option::None
    } else {
        Option::Some((s.take(j), s.skip(j + 1)))
    }
}

/// The number a run of digit characters denotes, where the whole text
/// is one non-empty digit run whose value fits the machine word.
pub open spec fn spec_parse_usize(s: Seq<char>) -> Option<usize> {
    if s.len() >= 1 && (forall|k: int| 0 <= k < s.len() ==> is_digit(#[trigger] s[k]))
        && digits_val(s) <= usize::MAX {
        Option::Some(digits_val(s) as usize)
    } else {
        Option::None
    }
}

/// What one command line option does to the three adjustable settings,
/// or the message it is refused with: `--pool` and `--port` take an
/// unsigned number, `--verbose` takes `true` or `false`, anything else
/// is unrecognized, and an option without an equals sign is malformed.
pub open spec fn spec_parse_option(
    pool: Option<usize>,
    port: Option<usize>,
    verbose: bool,
    s: Seq<char>,
) -> Result<(Option<usize>, Option<usize>, bool), Seq<char>> {
    match split_eq(s) {
        Option::None => Result::Err(("Expect option to be of format --<option>=<value>")@),
        Option::Some(kv) => {
            if kv.0 == seq!['-', '-', 'p', 'o', 'o', 'l'] {
                match spec_parse_usize(kv.1) {
                    Option::Some(n) => Result::Ok((Option::Some(n), port, verbose)),
                    Option::None => Result::Err(
                        ("Expect option value to be an unsigned integer")@,
                    ),
                }
            } else if kv.0 == seq!['-', '-', 'p', 'o', 'r', 't'] {
                match spec_parse_usize(kv.1) {
                    Option::Some(n) => Result::Ok((pool, Option::Some(n), verbose)),
                    Option::None => Result::Err(
                        ("Expect option value to be an unsigned integer")@,
                    ),
                }
            } else if kv.0 == seq!['-', '-', 'v', 'e', 'r', 'b', 'o', 's', 'e'] {
                if kv.1 == seq!['t', 'r', 'u', 'e'] {
                    Result::Ok((pool, port, true))
                } else if kv.1 == seq!['f', 'a', 'l', 's', 'e'] {
                    Result::Ok((pool, port, false))
                } else {
                    Result::Err(
                        (r#"The option "--verbose" only accepts "true" or "false" value"#)@,
                    )
                }
            } else {
                Result::Err(("Unrecognized option: ")@ + kv.0)
            }
        },
    }
}

/// What the options from index `i` on leave the settings at, or the
/// message the first refused option carries.
pub open spec fn spec_config_options(
    pool: Option<usize>,
    port: Option<usize>,
    verbose: bool,
    args: Seq<Seq<char>>,
    i: int,
) -> Result<(Option<usize>, Option<usize>, bool), Seq<char>>
    decreases args.len() - i,
{
    if i < 0 || i >= args.len() {
        Result::Ok((pool, port, verbose))
    } else {
        match spec_parse_option(pool, port, verbose, args[i]) {
            Result::Ok(t) => spec_config_options(t.0, t.1, t.2, args, i + 1),
            Result::Err(m) => Result::Err(m),
        }
    }
}

/// The views of a list of argument strings.
pub open spec fn args_model(args: Seq<String>) -> Seq<Seq<char>> {
    args.map_values(|a: String| a@)
}

/// What the server is asked to run with: the record directory, and the
/// optional worker pool size, port and verbosity.
#[derive(Debug)]
pub struct Config {
    pub jsondb_dir: String,
    pub pool_capacity: Option<usize>,
    pub port: Option<usize>,
    pub verbose: bool,
}

/// Reads one non-empty all-digit text as a number, where its value fits
/// the machine word.
pub(crate) fn parse_usize(value: &str) -> (r: Option<usize>)
    ensures
        r == spec_parse_usize(value@),
{
    let chars = str_to_chars(value);
    if chars.len() == 0 {
        return Option::None;
    }
    let mut k: usize = 0;
    let mut acc: usize = 0;
    while k < chars.len()
        invariant
            0 <= k <= chars@.len(),
            chars@ == value@,
            forall|j: int| 0 <= j < k ==> is_digit(#[trigger] chars@[j]),
            acc == digits_val(chars@.take(k as int)),
            digits_val(chars@.take(k as int)) <= usize::MAX,
        decreases chars@.len() - k,
    {
        let c = chars[k];
        if !(c >= '0' && c <= '9') {
            return Option::None;
        }
        let d: usize = match c {
            '0' => 0,
            '1' => 1,
            '2' => 2,
            '3' => 3,
            '4' => 4,
            '5' => 5,
            '6' => 6,
            '7' => 7,
            '8' => 8,
            _ => 9,
        };
        proof {
            assert(d == char_digit(c));
            let run1 = chars@.take(k + 1);
            assert(run1.drop_last() =~= chars@.take(k as int));
            assert(run1.last() == chars@[k as int]);
        }
        if acc > (usize::MAX - d) / 10 {
            proof {
                let q = ((usize::MAX - d) / 10) as int;
                assert(q * 10 <= usize::MAX - d);
                assert(acc as int * 10 >= (q + 1) * 10);
                assert(digits_val(chars@.take(k + 1)) > usize::MAX);
                if forall|j: int| 0 <= j < chars@.len() ==> is_digit(#[trigger] chars@[j]) {
                    lemma_digits_val_grows(chars@, k as int + 1);
                }
            }
            return Option::None;
        }
        proof {
            let q = ((usize::MAX - d) / 10) as int;
            assert(q * 10 <= usize::MAX - d);
            assert(acc as int * 10 <= q * 10);
        }
        acc = acc * 10 + d;
        k = k + 1;
    }
    proof {
        assert(chars@.take(chars@.len() as int) =~= chars@);
    }
    Option::Some(acc)
}

/// A digit run's value only grows as the run extends.
pub proof fn lemma_digits_val_grows(s: Seq<char>, i: int)
    requires
        0 <= i <= s.len(),
        forall|k: int| 0 <= k < s.len() ==> is_digit(#[trigger] s[k]),
    ensures
        digits_val(s) >= digits_val(s.take(i)),
        digits_val(s.take(i)) >= 0,
    decreases s.len() - i,
{
    if i == s.len() {
        assert(s.take(i) =~= s);
        lemma_digits_val_nonneg(s);
    } else {
        lemma_digits_val_grows(s, i + 1);
        lemma_digits_val_nonneg(s.take(i));
        let bigger = s.take(i + 1);
        assert(bigger.drop_last() =~= s.take(i));
        assert(is_digit(bigger.last()));
        assert(char_digit(bigger.last()) >= 0);
        assert(digits_val(bigger) >= digits_val(s.take(i)) * 10);
        assert(digits_val(s.take(i)) * 10 >= digits_val(s.take(i)));
    }
}

/// A digit run's value is never negative.
proof fn lemma_digits_val_nonneg(s: Seq<char>)
    requires
        forall|k: int| 0 <= k < s.len() ==> is_digit(#[trigger] s[k]),
    ensures
        digits_val(s) >= 0,
    decreases s.len(),
{
    if s.len() > 0 {
        assert forall|k: int| 0 <= k < s.drop_last().len() implies is_digit(
            #[trigger] s.drop_last()[k],
        ) by {
            assert(s.drop_last()[k] == s[k]);
        }
        lemma_digits_val_nonneg(s.drop_last());
        assert(is_digit(s.last()));
        assert(char_digit(s.last()) >= 0);
    }
}

impl Config {
    /// Reads the command line: the first argument is the program name,
    /// the second names the record directory, and each further one is
    /// an option. The whole read fails with the first refused option's
    /// message, or where no directory is named.
    pub fn from(args: Vec<String>) -> (r: Result<Config, String>)
        ensures
            args@.len() < 2 ==> ({
                &&& r matches Err(m) && m@ == (
                "Please specify the entry folder for all json db files")@
            }),
            args@.len() >= 2 ==> match spec_config_options(
                Option::None,
                Option::None,
                false,
                args_model(args@),
                2,
            ) {
                Result::Ok(t) => r matches Ok(c) && c.jsondb_dir@ == args@[1]@ && c.pool_capacity
                    == t.0 && c.port == t.1 && c.verbose == t.2,
                Result::Err(m) => r matches Err(e) && e@ == m,
            },
    {
        let len = args.len();
        if len < 2 {
            return Result::Err(
                String::from_str("Please specify the entry folder for all json db files"),
            );
        }
        let mut config = Config {
            jsondb_dir: args[1].clone(),
            pool_capacity: Option::None,
            port: Option::None,
            verbose: false,
        };
        let ghost margs = args_model(args@);
        let mut i: usize = 2;
        while i < len
            invariant
                2 <= i <= args@.len(),
                len == args@.len(),
                margs == args_model(args@),
                margs.len() == args@.len(),
                config.jsondb_dir@ == args@[1]@,
                spec_config_options(Option::None, Option::None, false, margs, 2)
                    == spec_config_options(
                    config.pool_capacity,
                    config.port,
                    config.verbose,
                    margs,
                    i as int,
                ),
            decreases args@.len() - i,
        {
            proof {
                assert(margs[i as int] == args@[i as int]@);
            }
            match config.parse_option(args[i].clone()) {
                Result::Ok(()) => {}
                Result::Err(m) => {
                    return Result::Err(m);
                }
            }
            i = i + 1;
        }
        Result::Ok(config)
    }

    /// Applies one option to the settings, or reports why it is
    /// refused, leaving the settings as they were.
    fn parse_option(&mut self, arg: String) -> (r: Result<(), String>)
        ensures
            match spec_parse_option(
                old(self).pool_capacity,
                old(self).port,
                old(self).verbose,
                arg@,
            ) {
                Result::Ok(t) => r is Ok && final(self).pool_capacity == t.0 && final(self).port
                    == t.1 && final(self).verbose == t.2 && final(self).jsondb_dir == old(
                    self,
                ).jsondb_dir,
                Result::Err(m) => r matches Err(e) && e@ == m && *final(self) == *old(self),
            },
    {
        let chars = str_to_chars(arg.as_str());
        let mut j: usize = 0;
        while j < chars.len() && chars[j] != '='
            invariant
                0 <= j <= chars@.len(),
                chars@ == arg@,
                eq_free_count(chars@, 0) == j + eq_free_count(chars@, j as int),
            decreases chars@.len() - j,
        {
            j = j + 1;
        }
        if j >= chars.len() {
            return Result::Err(String::from_str("Expect option to be of format --<option>=<value>"));
        }
        let key = arg.as_str().substring_char(0, j);
        let value = arg.as_str().substring_char(j + 1, chars.len());
        proof {
            assert(key@ == arg@.take(j as int));
            assert(value@ =~= arg@.skip(j as int + 1));
        }
        let pool_lit = String::from_str("--pool");
        let port_lit = String::from_str("--port");
        let verbose_lit = String::from_str("--verbose");
        let true_lit = String::from_str("true");
        let false_lit = String::from_str("false");
        proof {
            reveal_strlit("--pool");
            reveal_strlit("--port");
            reveal_strlit("--verbose");
            reveal_strlit("true");
            reveal_strlit("false");
            assert(pool_lit@ =~= seq!['-', '-', 'p', 'o', 'o', 'l']);
            assert(port_lit@ =~= seq!['-', '-', 'p', 'o', 'r', 't']);
            assert(verbose_lit@ =~= seq!['-', '-', 'v', 'e', 'r', 'b', 'o', 's', 'e']);
            assert(true_lit@ =~= seq!['t', 'r', 'u', 'e']);
            assert(false_lit@ =~= seq!['f', 'a', 'l', 's', 'e']);
        }
        let key_string = String::from_str(key);
        if key_string.eq(&pool_lit) {
            match parse_usize(value) {
                Option::Some(n) => {
                    self.pool_capacity = Option::Some(n);
                    Result::Ok(())
                }
                Option::None => Result::Err(
                    String::from_str("Expect option value to be an unsigned integer"),
                ),
            }
        } else if key_string.eq(&port_lit) {
            match parse_usize(value) {
                Option::Some(n) => {
                    self.port = Option::Some(n);
                    Result::Ok(())
                }
                Option::None => Result::Err(
                    String::from_str("Expect option value to be an unsigned integer"),
                ),
            }
        } else if key_string.eq(&verbose_lit) {
            let value_string = String::from_str(value);
            if value_string.eq(&true_lit) {
                self.verbose = true;
                Result::Ok(())
            } else if value_string.eq(&false_lit) {
                self.verbose = false;
                Result::Ok(())
            } else {
                Result::Err(
                    String::from_str(
                        r#"The option "--verbose" only accepts "true" or "false" value"#,
                    ),
                )
            }
        } else {
            let mut message = String::from_str("Unrecognized option: ");
            message.append(key);
            Result::Err(message)
        }
    }
}

} // verus!
