//! The configuration: a token.

use vstd::prelude::*;
use vstd::string::*;

use crate::text::{chars_of, trim, trimmed};

verus! {

/// The variable of the environment that holds the token.
pub const TOKEN_VAR: &'static str = "YANDEX_TOKEN";

/// A token, already checked: it is not empty and fits into a header.
///
/// It is as good as a password, and there is no way to print it but by taking the
/// text out.
pub struct Token(String);

impl Clone for Token {
    fn clone(&self) -> (r: Self)
        ensures
            r == *self,
    {
        Token(self.0.clone())
    }
}

impl Token {
    pub closed spec fn secret(self) -> Seq<char> {
        self.0@
    }

    pub fn as_str(&self) -> (r: &str)
        ensures
            r@ == self.secret(),
    {
        self.0.as_str()
    }
}

/// The configuration.
pub struct Config {
    pub token: Token,
}

/// Characters that a header takes: visible `ASCII` and the space.
pub open spec fn header_safe(c: char) -> bool {
    ' ' <= c <= '~'
}

/// Whether all characters of a text fit into a header.
pub open spec fn all_safe(s: Seq<char>) -> bool {
    forall|i: int| 0 <= i < s.len() ==> header_safe(#[trigger] s[i])
}

/// The first character of a text that does not fit into a header.
pub open spec fn first_unsafe(s: Seq<char>) -> Option<char>
    decreases s.len(),
{
    if s.len() == 0 {
        None
    } else if header_safe(s[0]) {
        first_unsafe(s.drop_first())
    } else {
        Some(s[0])
    }
}

/// Whether a character fits into a header.
pub fn is_header_safe(symbol: char) -> (r: bool)
    ensures
        r == header_safe(symbol),
{
    ('!' <= symbol && symbol <= '~') || symbol == ' '
}

/// A character in quotes, as the standard library prints it for debugging: with an
/// escape where the character cannot be seen.
pub uninterp spec fn quoted_char(symbol: char) -> Seq<char>;

/// `Debug` of `char` in the standard library: the character in quotes, escaped where
/// needed, by the character alone.
#[verifier::external_body]
fn quoted(symbol: char) -> (r: String)
    ensures
        r@ == quoted_char(symbol),
{
    format!("{symbol:?}")
}

/// What is said of a value that does not fit into a header.
pub open spec fn unsafe_words(variable: Seq<char>, symbol: char) -> Seq<char> {
    "переменная "@ + variable + " содержит недопустимый символ "@ + quoted_char(symbol)
        + ": значение уходит в HTTP-заголовок, где разрешены только видимые символы ASCII. Чаще всего это перенос строки, кавычки или кириллица, попавшие при копировании — скопируйте только само значение, без кавычек и переносов"@
}

/// Checks that a value fits into a header, and says what to mend where it does not.
pub fn ensure_header_safe(value: &str, variable: &str) -> (r: Result<(), String>)
    ensures
        match (r, first_unsafe(value@)) {
            (Ok(()), None) => true,
            (Err(reason), Some(symbol)) => reason@ == unsafe_words(variable@, symbol),
            _ => false,
        },
        r is Ok <==> all_safe(value@),
{
    let chars = chars_of(value);
    let mut i: usize = 0;
    proof {
        assert(value@.skip(0) =~= value@);
    }
    while i < chars.len()
        invariant
            i <= chars@.len(),
            chars@ == value@,
            first_unsafe(value@) == first_unsafe(value@.skip(i as int)),
            forall|j: int| 0 <= j < i ==> header_safe(#[trigger] value@[j]),
        decreases chars@.len() - i,
    {
        let symbol = chars[i];
        proof {
            assert(value@.skip(i as int).drop_first() =~= value@.skip(i + 1));
        }
        if !is_header_safe(symbol) {
            let mut reason = "переменная ".to_owned();
            reason.append(variable);
            reason.append(" содержит недопустимый символ ");
            reason.append(quoted(symbol).as_str());
            reason.append(
                ": значение уходит в HTTP-заголовок, где разрешены только видимые символы ASCII. Чаще всего это перенос строки, кавычки или кириллица, попавшие при копировании — скопируйте только само значение, без кавычек и переносов",
            );
            proof {
                assert(!header_safe(value@[i as int]));
            }
            return Err(reason);
        }
        i += 1;
    }
    Ok(())
}

/// What is said of a variable that is not set.
pub open spec fn missing_words() -> Seq<char> {
    "не задана переменная "@ + TOKEN_VAR@
}

/// What is said of a variable without a value.
pub open spec fn blank_words() -> Seq<char> {
    "переменная "@ + TOKEN_VAR@ + " пуста: как получить токен — см. README"@
}

/// The token that the value of a variable gives, or what is said of it.
pub open spec fn token_in(value: Option<Seq<char>>) -> Result<Seq<char>, Seq<char>> {
    match value {
        None => Err(missing_words()),
        Some(value) => {
            let token = trimmed(value);
            if token.len() == 0 {
                Err(blank_words())
            } else {
                match first_unsafe(token) {
                    Some(symbol) => Err(unsafe_words(TOKEN_VAR@, symbol)),
                    None => Ok(token),
                }
            }
        },
    }
}

impl Config {
    /// Makes a configuration of the value of [`TOKEN_VAR`], without white space
    /// around it.
    pub fn from_value(value: Option<&str>) -> (r: Result<Self, String>)
        ensures
            ({
                let said = token_in(
                    match value {
                        Some(value) => Some(value@),
                        None => None,
                    },
                );
                match r {
                    Ok(config) => said == Ok::<Seq<char>, Seq<char>>(config.token.secret()),
                    Err(reason) => said == Err::<Seq<char>, Seq<char>>(reason@),
                }
            }),
            match value {
                None => r matches Err(reason) && reason@ == missing_words(),
                Some(value) => {
                    let token = trimmed(value@);
                    match r {
                        Ok(config) => token.len() > 0 && all_safe(token) && config.token.secret()
                            == token,
                        Err(reason) => if token.len() == 0 {
                            reason@ == blank_words()
                        } else {
                            first_unsafe(token) matches Some(symbol) && reason@ == unsafe_words(
                                TOKEN_VAR@,
                                symbol,
                            )
                        },
                    }
                },
            },
    {
        match value {
            None => {
                let mut reason = "не задана переменная ".to_owned();
                reason.append(TOKEN_VAR);
                Err(reason)
            },
            Some(value) => {
                let token = trim(value);
                if token.as_str().is_empty() {
                    let mut reason = "переменная ".to_owned();
                    reason.append(TOKEN_VAR);
                    reason.append(" пуста: как получить токен — см. README");
                    return Err(reason);
                }
                ensure_header_safe(token.as_str(), TOKEN_VAR)?;
                Ok(Config { token: Token(token) })
            },
        }
    }
}

/// A token is refused for its first character that is neither a space nor visible
/// `ASCII`, and for no other.
pub proof fn law_first_bad_character(s: Seq<char>, at: int)
    ensures
        0 <= at < s.len() && !(32 <= s[at] as int <= 126) && (forall|i: int|
            0 <= i < at ==> 32 <= (#[trigger] s[i]) as int <= 126) ==> first_unsafe(s) == Some(s[at]),
        (forall|i: int| 0 <= i < s.len() ==> 32 <= (#[trigger] s[i]) as int <= 126) ==> first_unsafe(
            s,
        ) is None && all_safe(s),
        all_safe(s) <==> first_unsafe(s) is None,
    decreases s.len(),
{
    if s.len() > 0 {
        let rest = s.drop_first();
        law_first_bad_character(rest, at - 1);
        if forall|i: int| 0 <= i < s.len() ==> 32 <= (#[trigger] s[i]) as int <= 126 {
            assert forall|i: int| 0 <= i < rest.len() implies 32 <= (#[trigger] rest[i]) as int
                <= 126 by {
                assert(rest[i] == s[i + 1]);
            }
        }
        if 0 < at < s.len() && (forall|i: int| 0 <= i < at ==> 32 <= (#[trigger] s[i]) as int <= 126)
        {
            assert forall|i: int| 0 <= i < at - 1 implies 32 <= (#[trigger] rest[i]) as int <= 126 by {
                assert(rest[i] == s[i + 1]);
            }
            assert(header_safe(s[0]));
        }
        if all_safe(s) {
            assert forall|i: int| 0 <= i < rest.len() implies header_safe(#[trigger] rest[i]) by {
                assert(rest[i] == s[i + 1]);
            }
            assert(header_safe(s[0]));
        }
        if first_unsafe(s) is None {
            assert forall|i: int| 0 <= i < s.len() implies header_safe(#[trigger] s[i]) by {
                if i > 0 {
                    assert(rest[i - 1] == s[i]);
                }
            }
        }
    }
}

/// What is said of a token names the variable, and the character where there is one to
/// mend.
pub proof fn law_words_name_the_variable(variable: Seq<char>, symbol: char)
    ensures
        missing_words() == "не задана переменная "@ + "YANDEX_TOKEN"@,
        blank_words() == "переменная "@ + "YANDEX_TOKEN"@
            + " пуста: как получить токен — см. README"@,
        ({
            let said = "переменная "@ + variable + " содержит недопустимый символ "@ + quoted_char(
                symbol,
            );
            said.is_prefix_of(unsafe_words(variable, symbol))
        }),
{
    let said = "переменная "@ + variable + " содержит недопустимый символ "@ + quoted_char(symbol);
    assert(unsafe_words(variable, symbol).take(said.len() as int) =~= said);
}

/// A token is the value without white space around it, as long as something is left and
/// all of it is visible `ASCII` or spaces; otherwise what is said tells a missing value, a
/// blank one and one with a bad character apart.
pub proof fn law_tokens(value: Seq<char>)
    ensures
        ({
            let token = trimmed(value);
            let fits = forall|i: int| 0 <= i < token.len() ==> 32 <= (#[trigger] token[i]) as int
                <= 126;
            &&& token.len() > 0 && fits ==> token_in(Some(value)) == Ok::<Seq<char>, Seq<char>>(
                token,
            )
            &&& token.len() == 0 ==> token_in(Some(value)) == Err::<Seq<char>, Seq<char>>(
                blank_words(),
            )
            &&& token.len() > 0 && !fits ==> token_in(Some(value)) is Err
            &&& token_in(None) == Err::<Seq<char>, Seq<char>>(missing_words())
        }),
{
    let token = trimmed(value);
    law_first_bad_character(token, 0);
    if first_unsafe(token) is None {
        assert forall|i: int| 0 <= i < token.len() implies 32 <= (#[trigger] token[i]) as int
            <= 126 by {
            assert(header_safe(token[i]));
        }
    }
}

} // verus!
