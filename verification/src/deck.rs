//! Deck records and their partition into main deck and sideboard.
//!
//! A deck record is an ordered list of `(card name, partition label)`
//! entries plus optional timestamp fields. The partition label is compared
//! case-insensitively (over ASCII letters); an absent label means the main
//! deck.

use vstd::prelude::*;
use vstd::string::StringSliceAdditionalSpecFns;
use vstd::utf8::encode_utf8;

use crate::table::{has_name, names_nodup, push_unique};

verus! {

/// One card of a deck record: a name and an optional partition label.
#[derive(Clone, Debug)]
pub struct CardEntry {
    pub name: String,
    pub partition: Option<String>,
}

/// One deck: its cards and up to three timestamp fields, of which the
/// first present one counts.
#[derive(Clone, Debug)]
pub struct DeckRecord {
    pub cards: Vec<CardEntry>,
    pub date: Option<String>,
    pub scraped_at: Option<String>,
    pub created_at: Option<String>,
}

/// ASCII upper-case letters folded to lower case; other bytes unchanged.
pub open spec fn lower_byte(x: u8) -> u8 {
    if 65 <= x <= 90 {
        (x + 32) as u8
    } else {
        x
    }
}

/// The UTF-8 byte the label must carry at each position to read
/// "sideboard" after case folding.
pub open spec fn sideboard_byte(i: int) -> u8 {
    if i == 0 {
        0x73
    } else if i == 1 {
        0x69
    } else if i == 2 {
        0x64
    } else if i == 3 {
        0x65
    } else if i == 4 {
        0x62
    } else if i == 5 {
        0x6f
    } else if i == 6 {
        0x61
    } else if i == 7 {
        0x72
    } else {
        0x64
    }
}

/// The label bytes spell "sideboard" up to ASCII case.
pub open spec fn is_sideboard_bytes(bs: Seq<u8>) -> bool {
    bs.len() == 9 && forall|i: int| 0 <= i < 9 ==> lower_byte(#[trigger] bs[i]) == sideboard_byte(i)
}

/// Whether the label names the sideboard partition.
pub fn label_is_sideboard(s: &str) -> (r: bool)
    ensures
        r == is_sideboard_bytes(s.spec_bytes()),
{
    let b: &[u8] = s.as_bytes();
    if b.len() != 9 {
        return false;
    }
    let mut i: usize = 0;
    while i < 9
        invariant
            i <= 9,
            b@.len() == 9,
            b@ == s.spec_bytes(),
            forall|j: int| 0 <= j < i ==> lower_byte(#[trigger] b@[j]) == sideboard_byte(j),
        decreases 9 - i,
    {
        let x: u8 = b[i];
        let folded: u8 = if 65 <= x && x <= 90 {
            x + 32
        } else {
            x
        };
        let want: u8 = match i {
            0 => 0x73,
            1 => 0x69,
            2 => 0x64,
            3 => 0x65,
            4 => 0x62,
            5 => 0x6f,
            6 => 0x61,
            7 => 0x72,
            _ => 0x64,
        };
        proof {
            assert(want == sideboard_byte(i as int));
            assert(folded == lower_byte(b@[i as int]));
        }
        if folded != want {
            return false;
        }
        i = i + 1;
    }
    true
}

/// The entry is filed in the sideboard; an absent label means main deck.
pub open spec fn entry_is_sideboard(e: CardEntry) -> bool {
    match e.partition {
        Some(p) => is_sideboard_bytes(encode_utf8(p@)),
        None => false,
    }
}

/// Whether the entry belongs to the sideboard.
pub fn entry_sideboard(e: &CardEntry) -> (r: bool)
    ensures
        r == entry_is_sideboard(*e),
{
    match &e.partition {
        Some(p) => label_is_sideboard(p.as_str()),
        None => false,
    }
}

/// Among the first `k` entries, one files `n` in the sideboard.
pub open spec fn deck_has_sb_upto(d: DeckRecord, k: int, n: Seq<char>) -> bool {
    exists|i: int|
        0 <= i < k && i < d.cards@.len() && (#[trigger] d.cards@[i]).name@ == n
            && entry_is_sideboard(d.cards@[i])
}

/// Among the first `k` entries, one files `n` in the main deck.
pub open spec fn deck_has_mb_upto(d: DeckRecord, k: int, n: Seq<char>) -> bool {
    exists|i: int|
        0 <= i < k && i < d.cards@.len() && (#[trigger] d.cards@[i]).name@ == n
            && !entry_is_sideboard(d.cards@[i])
}

/// The deck's sideboard holds the card.
pub open spec fn deck_has_sb(d: DeckRecord, n: Seq<char>) -> bool {
    deck_has_sb_upto(d, d.cards@.len() as int, n)
}

/// The deck's main deck holds the card.
pub open spec fn deck_has_mb(d: DeckRecord, n: Seq<char>) -> bool {
    deck_has_mb_upto(d, d.cards@.len() as int, n)
}

/// The deck's sideboard holds at least two distinct cards, so it can
/// contribute pairwise signal.
pub open spec fn deck_active(d: DeckRecord) -> bool {
    exists|n1: Seq<char>, n2: Seq<char>|
        n1 != n2 && #[trigger] deck_has_sb(d, n1) && #[trigger] deck_has_sb(d, n2)
}

/// Splits a deck into its distinct sideboard names and distinct main-deck
/// names, in order of first appearance.
pub fn split_deck(d: &DeckRecord) -> (r: (Vec<String>, Vec<String>))
    ensures
        names_nodup(r.0@),
        names_nodup(r.1@),
        forall|n: Seq<char>| #[trigger] has_name(r.0@, n) == deck_has_sb(*d, n),
        forall|n: Seq<char>| #[trigger] has_name(r.1@, n) == deck_has_mb(*d, n),
{
    let mut sb: Vec<String> = Vec::new();
    let mut mb: Vec<String> = Vec::new();
    let mut i: usize = 0;
    while i < d.cards.len()
        invariant
            i <= d.cards@.len(),
            names_nodup(sb@),
            names_nodup(mb@),
            forall|n: Seq<char>| #[trigger] has_name(sb@, n) == deck_has_sb_upto(*d, i as int, n),
            forall|n: Seq<char>| #[trigger] has_name(mb@, n) == deck_has_mb_upto(*d, i as int, n),
        decreases d.cards@.len() - i,
    {
        let e: &CardEntry = &d.cards[i];
        let is_sb: bool = entry_sideboard(e);
        if is_sb {
            push_unique(&mut sb, e.name.as_str());
        } else {
            push_unique(&mut mb, e.name.as_str());
        }
        proof {
            assert forall|n: Seq<char>| #[trigger] has_name(sb@, n) == deck_has_sb_upto(
                *d,
                i + 1,
                n,
            ) by {
                if deck_has_sb_upto(*d, i + 1, n) {
                    let w = choose|w: int|
                        0 <= w < i + 1 && w < d.cards@.len() && (#[trigger] d.cards@[w]).name@ == n
                            && entry_is_sideboard(d.cards@[w]);
                    if w < i {
                        assert(deck_has_sb_upto(*d, i as int, n));
                    }
                }
                if has_name(sb@, n) && !deck_has_sb_upto(*d, i as int, n) {
                    assert(is_sb && n == e.name@);
                    assert(deck_has_sb_upto(*d, i + 1, n));
                }
                if deck_has_sb_upto(*d, i as int, n) {
                    assert(deck_has_sb_upto(*d, i + 1, n));
                }
            }
            assert forall|n: Seq<char>| #[trigger] has_name(mb@, n) == deck_has_mb_upto(
                *d,
                i + 1,
                n,
            ) by {
                if deck_has_mb_upto(*d, i + 1, n) {
                    let w = choose|w: int|
                        0 <= w < i + 1 && w < d.cards@.len() && (#[trigger] d.cards@[w]).name@ == n
                            && !entry_is_sideboard(d.cards@[w]);
                    if w < i {
                        assert(deck_has_mb_upto(*d, i as int, n));
                    }
                }
                if has_name(mb@, n) && !deck_has_mb_upto(*d, i as int, n) {
                    assert(!is_sb && n == e.name@);
                    assert(deck_has_mb_upto(*d, i + 1, n));
                }
                if deck_has_mb_upto(*d, i as int, n) {
                    assert(deck_has_mb_upto(*d, i + 1, n));
                }
            }
        }
        i = i + 1;
    }
    (sb, mb)
}

/// Among the first `k` entries, one carries the name, whatever its
/// partition.
pub open spec fn deck_has_card_upto(d: DeckRecord, k: int, n: Seq<char>) -> bool {
    exists|i: int|
        0 <= i < k && i < d.cards@.len() && (#[trigger] d.cards@[i]).name@ == n
}

/// The deck mentions the card in either partition.
pub open spec fn deck_has_card(d: DeckRecord, n: Seq<char>) -> bool {
    deck_has_card_upto(d, d.cards@.len() as int, n)
}

/// The distinct card names of the deck, both partitions combined, in
/// order of first appearance.
pub fn deck_all_names(d: &DeckRecord) -> (r: Vec<String>)
    ensures
        names_nodup(r@),
        forall|n: Seq<char>| #[trigger] has_name(r@, n) == deck_has_card(*d, n),
{
    let mut all: Vec<String> = Vec::new();
    let mut i: usize = 0;
    while i < d.cards.len()
        invariant
            i <= d.cards@.len(),
            names_nodup(all@),
            forall|n: Seq<char>|
                #[trigger] has_name(all@, n) == deck_has_card_upto(*d, i as int, n),
        decreases d.cards@.len() - i,
    {
        push_unique(&mut all, d.cards[i].name.as_str());
        proof {
            assert forall|n: Seq<char>| #[trigger] has_name(all@, n) == deck_has_card_upto(
                *d,
                i + 1,
                n,
            ) by {
                if deck_has_card_upto(*d, i + 1, n) {
                    let w = choose|w: int|
                        0 <= w < i + 1 && w < d.cards@.len() && (#[trigger] d.cards@[w]).name@
                            == n;
                    if w < i {
                        assert(deck_has_card_upto(*d, i as int, n));
                    }
                }
                if n == d.cards@[i as int].name@ {
                    assert(deck_has_card_upto(*d, i + 1, n));
                }
                if deck_has_card_upto(*d, i as int, n) {
                    assert(deck_has_card_upto(*d, i + 1, n));
                }
            }
        }
        i = i + 1;
    }
    all
}

/// A duplicate-free list of exactly the sideboard names has length at
/// least 2 precisely when the deck is active.
pub proof fn lemma_active_iff(d: DeckRecord, sb: Seq<String>)
    requires
        names_nodup(sb),
        forall|n: Seq<char>| #[trigger] has_name(sb, n) == deck_has_sb(d, n),
    ensures
        deck_active(d) == (sb.len() >= 2),
{
    if sb.len() >= 2 {
        assert(sb[0]@ != sb[1]@);
        assert(has_name(sb, sb[0]@));
        assert(has_name(sb, sb[1]@));
        assert(deck_has_sb(d, sb[0]@) && deck_has_sb(d, sb[1]@));
        assert(deck_active(d));
    }
    if deck_active(d) {
        let (n1, n2) = choose|n1: Seq<char>, n2: Seq<char>|
            n1 != n2 && #[trigger] deck_has_sb(d, n1) && #[trigger] deck_has_sb(d, n2);
        assert(has_name(sb, n1));
        assert(has_name(sb, n2));
        let w1 = choose|w: int| 0 <= w < sb.len() && sb[w]@ == n1;
        let w2 = choose|w: int| 0 <= w < sb.len() && sb[w]@ == n2;
        assert(w1 != w2);
        assert(sb.len() >= 2);
    }
}

} // verus!
