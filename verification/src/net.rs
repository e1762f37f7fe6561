//! The choice whether certificates of upstreams are checked.
use crate::text;
use vstd::prelude::*;

verus! {

/// Whether the value of `TAPE_INSECURE_TLS` switches the check of certificates off: `1`, `true`,
/// `yes` or `on`, whatever the case and the white space around it. All else leaves it on.
pub open spec fn is_switched_on(value: Option<Seq<char>>) -> bool {
    match value {
        Some(v) => {
            let name = text::lowered(text::trimmed(v));
            name == "1"@ || name == "true"@ || name == "yes"@ || name == "on"@
        },
        None => false,
    }
}

/// Whether the value of `TAPE_INSECURE_TLS` switches the check of certificates off.
pub fn insecure_tls_enabled(value: Option<&str>) -> (r: bool)
    ensures
        r == is_switched_on(
            match value {
                Some(v) => Some(v@),
                None => None,
            },
        ),
{
    match value {
        Some(v) => {
            let name = text::lower_string(&text::trim_string(v));
            text::same(&name, "1") || text::same(&name, "true") || text::same(&name, "yes")
                || text::same(&name, "on")
        },
        None => false,
    }
}

/// Only the four words switch the check of certificates off, whatever their case and the white
/// space around them; without a value it stays on.
pub proof fn law_only_four_words_count(a: Seq<char>, name: Seq<char>, b: Seq<char>)
    requires
        forall|i: int| 0 <= i < a.len() ==> text::is_space(#[trigger] a[i]),
        forall|i: int| 0 <= i < b.len() ==> text::is_space(#[trigger] b[i]),
        name.len() > 0 ==> !text::is_space(name[0]) && !text::is_space(name.last()),
    ensures
        is_switched_on(Some(a + name + b)) <==> seq!["1"@, "true"@, "yes"@, "on"@].contains(
            text::lowered(name),
        ),
        !is_switched_on(None),
{
    text::law_trimmed(a, name, b);
    let l = seq!["1"@, "true"@, "yes"@, "on"@];
    assert(l[0] == "1"@ && l[1] == "true"@ && l[2] == "yes"@ && l[3] == "on"@);
}

} // verus!
