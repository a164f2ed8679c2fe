use vstd::prelude::*;
use vstd::string::StrSliceExecFns;

verus! {

/// A typed value of a setting of the query engine.
#[derive(Debug)]
pub enum ConfigValue {
    Utf8(String),
    Boolean(bool),
    UInt64(u64),
}

/// Whether a text is a word, letter for letter.
fn is_word(text: &str, word: &str) -> (b: bool)
    ensures
        b == (text@ == word@),
{
    let n = text.unicode_len();
    if n != word.unicode_len() {
        return false;
    }
    let mut i: usize = 0;
    while i < n
        invariant
            i <= n,
            n == text@.len(),
            n == word@.len(),
            forall|k: int| 0 <= k < i ==> text@[k] == word@[k],
        decreases n - i,
    {
        if text.get_char(i) != word.get_char(i) {
            return false;
        }
        i = i + 1;
    }
    assert(text@ =~= word@);
    true
}

/// The truth value that a text stands for: `true` or `false`, else the
/// default.
pub open spec fn bool_or(text: Seq<char>, default: bool) -> bool {
    if text == "true"@ {
        true
    } else if text == "false"@ {
        false
    } else {
        default
    }
}

/// The value of a decimal digit, if the character is one.
pub open spec fn digit_value(c: char) -> Option<nat> {
    if '0' <= c && c <= '9' {
        Some((c as u8 - 48) as nat)
    } else {
        None
    }
}

/// The number that the first `upto` characters of a text of digits stand for,
/// if every one of them is a digit.
pub open spec fn digits_value(text: Seq<char>, upto: int) -> Option<nat>
    decreases upto,
{
    if upto <= 0 {
        Some(0)
    } else {
        match (digits_value(text, upto - 1), digit_value(text[upto - 1])) {
            (Some(front), Some(last)) => Some(front * 10 + last),
            _ => None,
        }
    }
}

/// The number that a text stands for: decimal digits, at least one, after
/// an optional plus sign, and no more than fits into 64 bits; else the
/// default.
pub open spec fn u64_or(text: Seq<char>, default: u64) -> u64 {
    let digits = if text.len() > 0 && text[0] == '+' {
        text.skip(1)
    } else {
        text
    };
    if digits.len() == 0 {
        default
    } else {
        match digits_value(digits, digits.len() as int) {
            Some(value) => if value <= u64::MAX {
                value as u64
            } else {
                default
            },
            None => default,
        }
    }
}

/// The number that a text of digits stands for grows with the text.
pub proof fn lemma_digits_grow(text: Seq<char>, m: int, n: int)
    requires
        0 <= m <= n,
        digits_value(text, n) is Some,
    ensures
        digits_value(text, m) is Some,
        digits_value(text, m)->0 <= digits_value(text, n)->0,
    decreases n - m,
{
    if m < n {
        lemma_digits_grow(text, m, n - 1);
    }
}

/// Reads a truth value; a text that is none gives the default.
pub fn parse_bool_or(text: &str, default: bool) -> (value: bool)
    ensures
        value == bool_or(text@, default),
{
    if is_word(text, "true") {
        true
    } else if is_word(text, "false") {
        false
    } else {
        default
    }
}

/// Reads a number; a text that is none, or one too large, gives the default.
pub fn parse_u64_or(text: &str, default: u64) -> (value: u64)
    ensures
        value == u64_or(text@, default),
{
    let n = text.unicode_len();
    let start: usize = if n > 0 && text.get_char(0) == '+' {
        1
    } else {
        0
    };
    let ghost digits = if start == 1 {
        text@.skip(1)
    } else {
        text@
    };
    if start == n {
        return default;
    }
    let mut value: u64 = 0;
    let mut i: usize = start;
    while i < n
        invariant
            start <= i <= n,
            n == text@.len(),
            digits.len() == n - start,
            digits.len() > 0,
            digits == (if text@.len() > 0 && text@[0] == '+' {
                text@.skip(1)
            } else {
                text@
            }),
            forall|k: int| 0 <= k < digits.len() ==> digits[k] == text@[k + start],
            digits_value(digits, i - start) == Some(value as nat),
        decreases n - i,
    {
        let c = text.get_char(i);
        if !('0' <= c && c <= '9') {
            proof {
                if digits_value(digits, digits.len() as int) is Some {
                    lemma_digits_grow(digits, i - start + 1, digits.len() as int);
                }
            }
            return default;
        }
        let d = (c as u8 - 48) as u64;
        if value > (u64::MAX - d) / 10 {
            proof {
                if digits_value(digits, digits.len() as int) is Some {
                    lemma_digits_grow(digits, i - start + 1, digits.len() as int);
                }
            }
            return default;
        }
        value = value * 10 + d;
        i = i + 1;
    }
    value
}

/// The setting of the query engine that a setting of a session stands for:
/// the typed value under the same key. `None` for a key that is not handed
/// on.
pub open spec fn propagated(key: Seq<char>, value: String) -> Option<ConfigValue> {
    if key == "datafusion.catalog.default_catalog"@ || key == "datafusion.catalog.default_schema"@
        || key == "datafusion.execution.time_zone"@ {
        Some(ConfigValue::Utf8(value))
    } else if key == "datafusion.optimizer.filter_null_join_keys"@ {
        Some(ConfigValue::Boolean(bool_or(value@, false)))
    } else if key == "datafusion.execution.coalesce_batches"@ || key
        == "datafusion.optimizer.skip_failed_rules"@ || key
        == "datafusion.execution.parquet.enable_page_index"@ || key
        == "datafusion.execution.parquet.pushdown_filters"@ || key
        == "datafusion.execution.parquet.reorder_filters"@ {
        Some(ConfigValue::Boolean(bool_or(value@, true)))
    } else if key == "datafusion.execution.coalesce_target_batch_size"@ {
        Some(ConfigValue::UInt64(u64_or(value@, 4096)))
    } else {
        None
    }
}

/// The setting of the query engine that a setting of a session stands for.
pub fn propagated_value(key: &str, value: &String) -> (setting: Option<ConfigValue>)
    ensures
        setting == propagated(key@, *value),
{
    if is_word(key, "datafusion.catalog.default_catalog") || is_word(
        key,
        "datafusion.catalog.default_schema",
    ) || is_word(key, "datafusion.execution.time_zone") {
        Some(ConfigValue::Utf8(value.clone()))
    } else if is_word(key, "datafusion.optimizer.filter_null_join_keys") {
        Some(ConfigValue::Boolean(parse_bool_or(value.as_str(), false)))
    } else if is_word(key, "datafusion.execution.coalesce_batches") || is_word(
        key,
        "datafusion.optimizer.skip_failed_rules",
    ) || is_word(key, "datafusion.execution.parquet.enable_page_index") || is_word(
        key,
        "datafusion.execution.parquet.pushdown_filters",
    ) || is_word(key, "datafusion.execution.parquet.reorder_filters") {
        Some(ConfigValue::Boolean(parse_bool_or(value.as_str(), true)))
    } else if is_word(key, "datafusion.execution.coalesce_target_batch_size") {
        Some(ConfigValue::UInt64(parse_u64_or(value.as_str(), 4096)))
    } else {
        None
    }
}

} // verus!
