//! Settings: what each spelling of an environment value means. A caller reads
//! the environment and hands the value, or its absence, to one of these.

use vstd::prelude::*;

use crate::text;

verus! {

/// The characters of an optional setting.
pub open spec fn setting(value: Option<&str>) -> Option<Seq<char>> {
    match value {
        Some(v) => Some(v@),
        None => None,
    }
}

/// The spellings that turn a setting on.
pub open spec fn says_on(value: Option<Seq<char>>) -> bool {
    value == Some("1"@) || value == Some("true"@)
}

/// The spellings that turn a setting off.
pub open spec fn says_off(value: Option<Seq<char>>) -> bool {
    value == Some("0"@) || value == Some("false"@)
}

/// A setting that is off unless asked for. The rest of the attention and
/// drafting settings that can move a token are read this way.
pub fn opted_in(value: Option<&str>) -> (on: bool)
    ensures
        on == says_on(setting(value)),
{
    match value {
        Some(v) => text::same_text(v, "1") || text::same_text(v, "true"),
        None => false,
    }
}

/// A setting that is on unless turned off.
pub fn not_opted_out(value: Option<&str>) -> (on: bool)
    ensures
        on == !says_off(setting(value)),
{
    match value {
        Some(v) => !(text::same_text(v, "0") || text::same_text(v, "false")),
        None => true,
    }
}

/// The number a setting spells exactly, `default` when it is absent or spells
/// none.
pub open spec fn number_or(value: Option<Seq<char>>, default: int) -> int {
    match value {
        Some(v) => match text::bounded_value(v, usize::MAX as int) {
            Some(n) => n,
            None => default,
        },
        None => default,
    }
}

/// Reads a number setting. White space around the number is not accepted.
pub fn env_usize(value: Option<&str>, default: usize) -> (n: usize)
    ensures
        n == number_or(setting(value), default as int),
{
    match value {
        Some(v) => match text::parse_usize(v) {
            Some(n) => n,
            None => default,
        },
        None => default,
    }
}

/// The number a setting spells between white space, if any.
pub open spec fn trimmed_number(value: Option<Seq<char>>, limit: int) -> Option<int> {
    match value {
        Some(v) => text::bounded_value(text::trimmed(v), limit),
        None => None,
    }
}

/// Reads a number setting, white space around it aside.
pub fn number(value: Option<&str>) -> (n: Option<usize>)
    ensures
        n is Some <==> trimmed_number(setting(value), usize::MAX as int) is Some,
        n is Some ==> trimmed_number(setting(value), usize::MAX as int) == Some(n->0 as int),
{
    match value {
        Some(v) => text::parse_usize(text::trim(v)),
        None => None,
    }
}

/// Reads a 64-bit number setting, white space around it aside.
pub fn number_u64(value: Option<&str>) -> (n: Option<u64>)
    ensures
        n is Some <==> trimmed_number(setting(value), u64::MAX as int) is Some,
        n is Some ==> trimmed_number(setting(value), u64::MAX as int) == Some(n->0 as int),
{
    match value {
        Some(v) => text::parse_u64(text::trim(v)),
        None => None,
    }
}

/// One mebibyte.
pub const MIB: usize = 0x10_0000;

/// The bytes a setting in mebibytes asks for, as far as they can be counted.
pub open spec fn mib_bytes(value: Option<Seq<char>>) -> int {
    match trimmed_number(value, usize::MAX as int) {
        Some(mb) => if mb * MIB > usize::MAX {
            usize::MAX as int
        } else {
            mb * MIB
        },
        None => 0,
    }
}

/// A byte budget given in mebibytes; absent or unreadable means none.
pub fn mib_budget(value: Option<&str>) -> (bytes: usize)
    ensures
        bytes == mib_bytes(setting(value)),
{
    match number(value) {
        Some(mb) => match mb.checked_mul(MIB) {
            Some(b) => b,
            None => usize::MAX,
        },
        None => 0,
    }
}

/// Recent routed sets the momentum predictor votes over: at least one, four
/// unless the setting spells another number.
pub fn route_hist_depth(value: Option<&str>) -> (depth: usize)
    ensures
        depth == if number_or(setting(value), 0) >= 1 {
            number_or(setting(value), 0)
        } else {
            4
        },
        depth >= 1,
{
    let n: usize = env_usize(value, 0);
    if n >= 1 {
        n
    } else {
        4
    }
}

/// Parallel prefetch lanes: one unless the setting spells more.
pub fn prefetch_lanes(value: Option<&str>) -> (lanes: usize)
    ensures
        lanes == if number_or(setting(value), 1) < 1 {
            1
        } else {
            number_or(setting(value), 1)
        },
        lanes >= 1,
{
    let n: usize = env_usize(value, 1);
    if n < 1 {
        1
    } else {
        n
    }
}

/// How many of the next layer's ranked experts the look-ahead streams.
pub fn router_lookahead_width(value: Option<&str>) -> (width: usize)
    ensures
        width == number_or(setting(value), 6),
{
    env_usize(value, 6)
}

/// The width of the predictor scoreboard: the routing width unless the setting
/// spells another, and at least one.
pub fn predict_eval_width(value: Option<&str>, topk: usize) -> (width: usize)
    ensures
        width == if number_or(setting(value), topk as int) < 1 {
            1
        } else {
            number_or(setting(value), topk as int)
        },
{
    let n: usize = env_usize(value, topk);
    if n < 1 {
        1
    } else {
        n
    }
}

/// A setting that only `0`, `false` or `off` turns off, in any case and with
/// white space around it.
pub open spec fn says_off_loosely(value: Option<Seq<char>>) -> bool {
    match value {
        Some(v) => {
            let t = text::trimmed(v);
            t == "0"@ || text::same_ignoring_case(t, "false"@) || text::same_ignoring_case(
                t,
                "off"@,
            )
        },
        None => false,
    }
}

/// Whether device-pure claims are wanted; on unless turned off.
pub fn device_sched(value: Option<&str>) -> (on: bool)
    ensures
        on == !says_off_loosely(setting(value)),
{
    match value {
        Some(v) => {
            let t = text::trim(v);
            !(text::same_text(t, "0") || text::same_text_ignoring_case(t, "false")
                || text::same_text_ignoring_case(t, "off"))
        },
        None => true,
    }
}

/// The element type of a key-value cache.
#[derive(Clone, Copy, Debug, PartialEq, Eq, Structural)]
pub enum KvDtype {
    /// Four bytes an element.
    F32,
    /// Two bytes an element.
    F16,
}

/// What a cache element type setting asks for: the type, and whether the
/// spelling was not recognised and so ignored.
pub struct DtypeChoice {
    /// The element type to use.
    pub dtype: KvDtype,
    /// The setting was present and meant nothing.
    pub unrecognised: bool,
}

/// Reads the cache element type. A spelling that names none is reported and
/// ignored: halving the precision on a typo would change token values with
/// nothing saying so.
pub fn kv_dtype(value: Option<&str>) -> (choice: DtypeChoice)
    ensures
        setting(value) is None ==> choice.dtype == KvDtype::F32 && !choice.unrecognised,
        setting(value) == Some("f32"@) ==> choice.dtype == KvDtype::F32 && !choice.unrecognised,
        setting(value) == Some("f16"@) ==> choice.dtype == KvDtype::F16 && !choice.unrecognised,
        setting(value) is Some && setting(value) != Some("f32"@) && setting(value) != Some("f16"@)
            ==> choice.dtype == KvDtype::F32 && choice.unrecognised,
{
    proof {
        reveal_strlit("f32");
        reveal_strlit("f16");
        assert("f32"@[1] != "f16"@[1]);
    }
    match value {
        None => DtypeChoice { dtype: KvDtype::F32, unrecognised: false },
        Some(v) => if text::same_text(v, "f32") {
            DtypeChoice { dtype: KvDtype::F32, unrecognised: false }
        } else if text::same_text(v, "f16") {
            DtypeChoice { dtype: KvDtype::F16, unrecognised: false }
        } else {
            DtypeChoice { dtype: KvDtype::F32, unrecognised: true }
        },
    }
}

/// A switch is on where its setting spells `1` or `true` and off where it spells
/// `0` or `false`; anything else, and nothing, is neither.
pub proof fn lemma_switch_spellings(v: Seq<char>)
    ensures
        says_on(Some("1"@)) && says_on(Some("true"@)),
        says_off(Some("0"@)) && says_off(Some("false"@)),
        !says_on(None) && !says_off(None),
        says_on(Some(v)) ==> v == "1"@ || v == "true"@,
        says_off(Some(v)) ==> v == "0"@ || v == "false"@,
        !(says_on(Some(v)) && says_off(Some(v))),
{
    reveal_strlit("0");
    reveal_strlit("1");
    reveal_strlit("true");
    reveal_strlit("false");
    assert("0"@[0] != "1"@[0]);
    assert("0"@.len() != "true"@.len());
    assert("false"@.len() != "1"@.len());
    assert("false"@.len() != "true"@.len());
}

/// A number a setting spells is that number, and what is no number leaves the
/// default; a trimmed one may have white space around it. A number of mebibytes is
/// that many bytes, as far as they can be counted.
pub proof fn lemma_numbers_of_settings(l: Seq<char>, n: nat, r: Seq<char>, default: int, limit: int)
    requires
        forall|i: int| 0 <= i < l.len() ==> text::is_white(#[trigger] l[i]),
        forall|i: int| 0 <= i < r.len() ==> text::is_white(#[trigger] r[i]),
    ensures
        n <= usize::MAX ==> number_or(Some(text::decimal(n)), default) == n,
        n > usize::MAX ==> number_or(Some(text::decimal(n)), default) == default,
        number_or(None, default) == default,
        n <= limit ==> trimmed_number(Some(l + text::decimal(n) + r), limit) == Some(n as int),
        n > limit ==> trimmed_number(Some(l + text::decimal(n) + r), limit) is None,
        trimmed_number(None, limit) is None,
        mib_bytes(None) == 0,
        n * 0x10_0000 <= usize::MAX ==> mib_bytes(Some(l + text::decimal(n) + r)) == n * 0x10_0000,
        n <= usize::MAX < n * 0x10_0000 ==> mib_bytes(Some(l + text::decimal(n) + r)) == usize::MAX,
{
    text::lemma_numbers_read_back(l, n, r, usize::MAX as int);
    text::lemma_numbers_read_back(l, n, r, limit);
}

/// What is no number leaves the default, whatever it is.
pub proof fn lemma_no_number_leaves_the_default(v: Seq<char>, default: int)
    requires
        v.len() == 0 || exists|i: int|
            0 <= i < v.len() && !(0x30 <= (#[trigger] v[i]) as u32 <= 0x39) && v[i] != '+',
    ensures
        number_or(Some(v), default) == default,
{
    if text::bounded_value(v, usize::MAX as int) is Some {
        if v.len() > 0 {
            let i = choose|i: int|
                0 <= i < v.len() && !(0x30 <= (#[trigger] v[i]) as u32 <= 0x39) && v[i] != '+';
            text::lemma_only_digits_are_numbers(v, usize::MAX as int, i);
        }
    }
}

/// The loose switch is off where its setting spells `0`, or `false` or `off` in
/// any case, whatever white space stands around it, and on otherwise.
pub proof fn lemma_loose_spellings(l: Seq<char>, x: Seq<char>, r: Seq<char>)
    requires
        forall|i: int| 0 <= i < l.len() ==> text::is_white(#[trigger] l[i]),
        forall|i: int| 0 <= i < r.len() ==> text::is_white(#[trigger] r[i]),
        x.len() > 0,
        !text::is_white(x[0]),
        !text::is_white(x.last()),
    ensures
        says_off_loosely(Some(l + x + r)) <==> x == "0"@ || text::same_ignoring_case(x, "false"@)
            || text::same_ignoring_case(x, "off"@),
        !says_off_loosely(None),
{
    text::lemma_padding_is_trimmed(l, x, r);
}

} // verus!
