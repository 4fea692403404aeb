//! Compact formatting of Rust source. After rustfmt has laid a file out,
//! short blocks that rustfmt broke over several lines are joined back onto
//! one line, and each `else` of a statement-position `if` chain is put on a
//! line of its own.

pub mod text;
pub mod syntax;
pub mod edits;
pub mod join;
pub mod elses;
pub mod config;
pub mod cli;
pub mod laws;
pub mod guard;
pub mod settle;
pub mod tokens;

use vstd::prelude::*;
use crate::text::{chars_eq, chars_of, string_from_chars};
use crate::join::{round, round_of};
use crate::elses::{split_elses, split_of};
use crate::settle::{lemma_round_settles, newlines};

verus! {

/// Joining rounds from `s` on until a round changes nothing. Each round that
/// changes the text takes a line break out of it, so this comes to an end.
pub open spec fn settled(s: Seq<char>, width: usize) -> Seq<char>
    decreases newlines(s),
{
    let next = round(s, width);
    if next == s {
        s
    } else {
        proof {
            lemma_round_settles(s, width);
        }
        settled(next, width)
    }
}

/// What `compact` makes of `s`: joining rounds to a fixpoint, then each
/// statement-position `else` on its own line.
pub open spec fn compacted(s: Seq<char>, width: usize) -> Seq<char> {
    split_elses(settled(s, width))
}

/// Re-joins the short constructs of rustfmt output: innermost first, round
/// after round until nothing changes, then puts each `else` of a
/// statement-position if/else chain on its own line.
pub fn compact(src: &str, width: usize) -> (r: String)
    ensures
        r@ == compacted(src@, width),
{
    let mut cur = chars_of(src);
    let mut done = false;
    while !done
        invariant
            compacted(src@, width) == if done {
                split_elses(cur@)
            } else {
                split_elses(settled(cur@, width))
            },
        decreases newlines(cur@) + if done {
            0nat
        } else {
            1nat
        },
    {
        let next = round_of(&cur, width);
        if chars_eq(&next, &cur) {
            done = true;
        } else {
            proof {
                lemma_round_settles(cur@, width);
            }
            cur = next;
        }
    }
    let out = split_of(&cur);
    string_from_chars(&out)
}

} // verus!
