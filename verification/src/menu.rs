//! Menu choices: the program's menus number their options from 1, and an
//! answer picks an option only when it is exactly that number.

use vstd::prelude::*;
use vstd::string::StrSliceExecFns;

verus! {

/// The option that the answer `s` picks in a menu of `options` entries:
/// `s` is the single digit `k` with `1 <= k <= options`.
pub open spec fn menu_choice(s: Seq<char>, options: nat) -> Option<usize> {
    if s.len() == 1 && 49 <= (s[0] as u32) && (s[0] as u32) - 48 <= options {
        Some(((s[0] as u32) - 48) as usize)
    } else {
        None
    }
}

/// Reads a menu answer: `Some(k)` for the option numbered `k`, `None` for
/// anything else (which the menus report as invalid input).
pub fn menu_option(choice: &str, options: usize) -> (r: Option<usize>)
    requires
        options <= 9,
    ensures
        r == menu_choice(choice@, options as nat),
{
    if choice.unicode_len() != 1 {
        return None;
    }
    let c = choice.get_char(0) as u32;
    if 49 <= c && c - 48 <= options as u32 {
        Some((c - 48) as usize)
    } else {
        None
    }
}

/// What a menu answer picks: every listed option `k` is picked by its own
/// digit; an answer that picks something picks a listed option and is
/// exactly its digit; any answer of other than one character picks nothing.
pub proof fn lemma_menu_choices(s: Seq<char>, options: nat)
    requires
        options <= 9,
    ensures
        forall|k: nat|
            1 <= k <= options ==> #[trigger] menu_choice(seq![((k + 48) as u32) as char], options)
                == Some(k as usize),
        menu_choice(s, options) matches Some(k) ==> 1 <= k <= options && s.len() == 1 && s[0] as u32
            == k + 48,
        s.len() != 1 ==> menu_choice(s, options) is None,
{
    assert forall|k: nat| 1 <= k <= options implies #[trigger] menu_choice(
        seq![((k + 48) as u32) as char],
        options,
    ) == Some(k as usize) by {
        let c = ((k + 48) as u32) as char;
        assert(c as u32 == k + 48);
        assert(seq![c][0] == c);
    }
}

} // verus!
