//! The runtime configuration and how it is assembled from externally
//! collected settings. Reading the process environment happens outside the
//! library; this module owns the defaulting and number-parsing rules.
use vstd::prelude::*;
use vstd::string::StrSliceExecFns;

use crate::error::JjaiConfigError;

verus! {

/// The model used when none is configured.
pub const DEFAULT_MODEL: &'static str = "openai/gpt-4o-mini";

/// The token budget used when none is configured, or when the configured one
/// does not parse.
pub const DEFAULT_MAX_TOKENS: u16 = 256;

/// Settings for the text-generation backend.
#[derive(Debug, Clone)]
pub struct JjaiConfig {
    /// Credential for the backend.
    pub api_key: String,
    /// Model identifier passed through to the backend.
    pub model: String,
    /// Upper bound on generated tokens.
    pub max_tokens: u16,
}

/// A decimal digit.
pub open spec fn is_digit_char(c: char) -> bool {
    ('0' as u32) <= (c as u32) <= ('9' as u32)
}

/// The numeric value of one digit.
pub open spec fn digit_val(c: char) -> nat {
    ((c as u32) - ('0' as u32)) as nat
}

/// The numeric value of a digit string.
pub open spec fn dec_value(s: Seq<char>) -> nat
    decreases s.len(),
{
    if s.len() == 0 {
        0
    } else {
        dec_value(s.drop_last()) * 10 + digit_val(s.last())
    }
}

/// `s` without one optional leading `+`.
pub open spec fn strip_plus(s: Seq<char>) -> Seq<char> {
    if s.len() > 0 && s[0] == '+' {
        s.drop_first()
    } else {
        s
    }
}

/// A non-empty, digits-only string.
pub open spec fn all_digits(t: Seq<char>) -> bool {
    forall|k: int| 0 <= k < t.len() ==> is_digit_char(#[trigger] t[k])
}

/// What parsing the digit part accepts: one or more digits whose value fits.
pub open spec fn parse_digits_spec(t: Seq<char>) -> Option<u16> {
    if t.len() > 0 && all_digits(t) && dec_value(t) <= 65535 {
        Some(dec_value(t) as u16)
    } else {
        None
    }
}

/// What parsing an unsigned 16-bit decimal accepts: an optional leading `+`,
/// then one or more digits whose value fits.
pub open spec fn parse_u16_spec(s: Seq<char>) -> Option<u16> {
    parse_digits_spec(strip_plus(s))
}

proof fn lemma_dec_value_take_le(s: Seq<char>, j: int)
    requires
        0 <= j <= s.len(),
    ensures
        dec_value(s.take(j)) <= dec_value(s),
    decreases s.len() - j,
{
    if j == s.len() {
        assert(s.take(j) =~= s);
    } else {
        assert(s.drop_last() =~= s.take(s.len() - 1));
        assert(s.take(s.len() - 1).take(j) =~= s.take(j));
        lemma_dec_value_take_le(s.take(s.len() - 1), j);
    }
}

/// Parses an unsigned 16-bit decimal, exactly as `parse_u16_spec` describes.
pub fn parse_u16(s: &str) -> (r: Option<u16>)
    ensures
        r == parse_u16_spec(s@),
{
    let n = s.unicode_len();
    let mut i: usize = 0;
    if n > 0 && s.get_char(0) == '+' {
        i = 1;
    }
    let ghost t = strip_plus(s@);
    let ghost off = i as int;
    proof {
        assert(t =~= s@.skip(off));
    }
    if i == n {
        proof {
            assert(t.len() == 0);
            assert(parse_digits_spec(t) is None);
        }
        return None;
    }
    let mut acc: u32 = 0;
    while i < n
        invariant
            off <= i <= n,
            n == s@.len(),
            off == 0 || off == 1,
            t == strip_plus(s@),
            t =~= s@.skip(off),
            forall|k: int| 0 <= k < i - off ==> is_digit_char(#[trigger] t[k]),
            acc == dec_value(t.take(i - off)),
            acc <= 65535,
        decreases n - i,
    {
        let c = s.get_char(i);
        let cv = c as u32;
        if cv < ('0' as u32) || cv > ('9' as u32) {
            proof {
                assert(t[i - off] == s@[i as int]);
                assert(!is_digit_char(t[i - off]));
                assert(0 <= i - off < t.len());
                assert(!all_digits(t));
                assert(parse_digits_spec(t) is None);
            }
            return None;
        }
        let d: u32 = cv - ('0' as u32);
        let next: u32 = acc * 10 + d;
        proof {
            assert(t.take(i - off + 1).drop_last() =~= t.take(i - off));
            assert(t.take(i - off + 1).last() == t[i - off]);
            assert(t[i - off] == s@[i as int]);
        }
        if next > 65535 {
            proof {
                assert(next == dec_value(t.take(i - off + 1)));
                lemma_dec_value_take_le(t, i - off + 1);
                assert(dec_value(t) > 65535);
                assert(parse_digits_spec(t) is None);
            }
            return None;
        }
        acc = next;
        i += 1;
    }
    proof {
        assert(t.take(n - off) =~= t);
    }
    Some(acc as u16)
}

impl JjaiConfig {
    /// Assembles the configuration from externally collected settings: the
    /// API key is required, the model defaults, and a max-token setting that
    /// does not parse falls back to the default.
    pub fn from_values(
        api_key: Option<String>,
        model: Option<String>,
        max_tokens: Option<String>,
    ) -> (r: Result<JjaiConfig, JjaiConfigError>)
        ensures
            api_key is None ==> r == Result::<JjaiConfig, JjaiConfigError>::Err(
                JjaiConfigError::MissingApiKey,
            ),
            api_key is Some ==> r is Ok && {
                let c = r->Ok_0;
                &&& c.api_key == api_key->0
                &&& c.model@ == if model is Some {
                    model->0@
                } else {
                    DEFAULT_MODEL@
                }
                &&& c.max_tokens == if max_tokens is Some && parse_u16_spec(max_tokens->0@)
                    is Some {
                    parse_u16_spec(max_tokens->0@)->0
                } else {
                    DEFAULT_MAX_TOKENS
                }
            },
    {
        let key = match api_key {
            None => {
                return Err(JjaiConfigError::MissingApiKey);
            },
            Some(k) => k,
        };
        let model_name = match model {
            Some(m) => m,
            None => DEFAULT_MODEL.to_owned(),
        };
        let tokens: u16 = match max_tokens {
            Some(v) => match parse_u16(v.as_str()) {
                Some(t) => t,
                None => DEFAULT_MAX_TOKENS,
            },
            None => DEFAULT_MAX_TOKENS,
        };
        Ok(JjaiConfig { api_key: key, model: model_name, max_tokens: tokens })
    }
}

} // verus!
