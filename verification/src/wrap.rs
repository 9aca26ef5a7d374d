//! How many lines a card's text takes when it is wrapped at a given number
//! of characters per line.
use vstd::prelude::*;

use crate::text::chars_of;

verus! {

/// `str::split(sep)`: the pieces between separators (one empty piece for an empty string).
pub open spec fn split_on(s: Seq<char>, sep: char) -> Seq<Seq<char>>
    decreases s.len(),
{
    if s.len() == 0 {
        seq![Seq::<char>::empty()]
    } else {
        let r = split_on(s.drop_last(), sep);
        if s.last() == sep {
            r.push(Seq::<char>::empty())
        } else {
            r.update(r.len() - 1, r.last().push(s.last()))
        }
    }
}

/// `str::split_inclusive(' ')`: the words, each with the space that ends it.
pub open spec fn split_words(s: Seq<char>) -> Seq<Seq<char>>
    decreases s.len(),
{
    if s.len() == 0 {
        Seq::empty()
    } else {
        let r = split_words(s.drop_last());
        if r.len() == 0 || r.last().last() == ' ' {
            r.push(seq![s.last()])
        } else {
            r.update(r.len() - 1, r.last().push(s.last()))
        }
    }
}

/// Where a word of `wlen` characters that starts a line leaves the cursor:
/// lines added beyond the current one, and the column after it.
pub open spec fn start_word(lines: nat, wlen: nat, max: nat) -> (nat, nat) {
    if wlen > max {
        (
            lines + ((wlen - 1) as nat) / max,
            if wlen % max == 0 {
                max
            } else {
                wlen % max
            },
        )
    } else {
        (lines, wlen)
    }
}

/// Places a word of `wlen` characters with the cursor at (`lines`, `col`).
pub open spec fn place_word(lines: nat, col: nat, wlen: nat, max: nat) -> (nat, nat) {
    if col == 0 {
        start_word(lines, wlen, max)
    } else if col + wlen > max {
        start_word(lines + 1, wlen, max)
    } else {
        (lines, col + wlen)
    }
}

/// The cursor (lines used, column) after placing `words` on fresh lines.
pub open spec fn place_words(words: Seq<Seq<char>>, max: nat) -> (nat, nat)
    decreases words.len(),
{
    if words.len() == 0 {
        (1, 0)
    } else {
        let c = place_words(words.drop_last(), max);
        place_word(c.0, c.1, words.last().len(), max)
    }
}

/// Lines taken by one paragraph (an empty one takes one line).
pub open spec fn paragraph_lines(p: Seq<char>, max: nat) -> nat {
    if p.len() == 0 {
        1
    } else {
        place_words(split_words(p), max).0
    }
}

/// Lines taken by all the paragraphs.
pub open spec fn total_lines(paras: Seq<Seq<char>>, max: nat) -> nat
    decreases paras.len(),
{
    if paras.len() == 0 {
        0
    } else {
        total_lines(paras.drop_last(), max) + paragraph_lines(paras.last(), max)
    }
}

/// Lines taken by `text` wrapped at `max` characters: paragraphs split at
/// `\n`, words at spaces; a word longer than a line is cut across lines. At least one.
pub open spec fn wrap_lines(text: Seq<char>, max: nat) -> nat {
    let n = total_lines(split_on(text, '\n'), max);
    if n < 1 {
        1
    } else {
        n
    }
}

proof fn lemma_start_word_bound(lines: nat, wlen: nat, max: nat)
    requires
        wlen >= 1,
        max >= 1,
    ensures
        start_word(lines, wlen, max).0 + start_word(lines, wlen, max).1 <= lines + wlen,
        start_word(lines, wlen, max).1 >= 1,
{
    if wlen > max {
        let q = wlen / max;
        let r = wlen % max;
        assert(wlen == max * q + r && 0 <= r < max) by (nonlinear_arith)
            requires
                max >= 1,
                q == wlen / max,
                r == wlen % max,
        ;
        assert(q >= 1) by (nonlinear_arith)
            requires
                wlen == max * q + r,
                r < max,
                wlen > max,
        ;
        if r == 0 {
            assert(((wlen - 1) as nat) / max == q - 1) by (nonlinear_arith)
                requires
                    wlen == max * q,
                    q >= 1,
                    max >= 1,
            ;
            assert(q - 1 + max <= max * q) by (nonlinear_arith)
                requires
                    q >= 1,
                    max >= 1,
            ;
        } else {
            assert(((wlen - 1) as nat) / max == q) by (nonlinear_arith)
                requires
                    wlen == max * q + r,
                    1 <= r < max,
            ;
            assert(q <= max * q) by (nonlinear_arith)
                requires
                    q >= 1,
                    max >= 1,
            ;
        }
    }
}

proof fn lemma_place_word_bound(lines: nat, col: nat, wlen: nat, max: nat)
    requires
        wlen >= 1,
        max >= 1,
    ensures
        place_word(lines, col, wlen, max).0 <= lines + wlen,
        place_word(lines, col, wlen, max).0 + place_word(lines, col, wlen, max).1 <= lines + col
            + wlen,
        place_word(lines, col, wlen, max).0 >= lines,
        place_word(lines, col, wlen, max).1 >= 1,
{
    if col == 0 {
        lemma_start_word_bound(lines, wlen, max);
    } else if col + wlen > max {
        lemma_start_word_bound(lines + 1, wlen, max);
    }
}

fn start_word_exec(lines: usize, wlen: usize, max: usize) -> (r: (usize, usize))
    requires
        max >= 1,
        lines + wlen <= usize::MAX,
    ensures
        (r.0 as nat, r.1 as nat) == start_word(lines as nat, wlen as nat, max as nat),
{
    if wlen > max {
        proof {
            assert((wlen - 1) as nat / max as nat <= (wlen - 1) as nat) by (nonlinear_arith)
                requires
                    max >= 1,
                    wlen >= 1,
            ;
        }
        let c = if wlen % max == 0 {
            max
        } else {
            wlen % max
        };
        (lines + (wlen - 1) / max, c)
    } else {
        (lines, wlen)
    }
}

fn place_word_exec(lines: usize, col: usize, wlen: usize, max: usize) -> (r: (usize, usize))
    requires
        max >= 1,
        wlen >= 1,
        lines + col + wlen <= usize::MAX,
    ensures
        (r.0 as nat, r.1 as nat) == place_word(lines as nat, col as nat, wlen as nat, max as nat),
{
    if col == 0 {
        start_word_exec(lines, wlen, max)
    } else if col + wlen > max {
        start_word_exec(lines + 1, wlen, max)
    } else {
        (lines, col + wlen)
    }
}

/// The sum of the lengths of `ws`.
pub open spec fn total_len(ws: Seq<Seq<char>>) -> nat
    decreases ws.len(),
{
    if ws.len() == 0 {
        0
    } else {
        total_len(ws.drop_last()) + ws.last().len()
    }
}

/// The number of lines `text` takes when wrapped at `max_chars` characters per line.
pub fn wrap_line_count(text: &str, max_chars: usize) -> (n: usize)
    requires
        max_chars >= 1,
        text@.len() < usize::MAX,
    ensures
        n as nat == wrap_lines(text@, max_chars as nat),
{
    let chars = chars_of(text);
    let ghost max = max_chars as nat;
    // Finished paragraphs and their lines.
    let ghost mut paras: Seq<Seq<char>> = Seq::empty();
    let mut total: usize = 0;
    // The paragraph being read: its finished words, the cursor they leave,
    // and the word being read.
    let ghost mut para: Seq<char> = Seq::empty();
    let ghost mut words: Seq<Seq<char>> = Seq::empty();
    let ghost mut word: Seq<char> = Seq::empty();
    let mut lines: usize = 1;
    let mut col: usize = 0;
    let mut wlen: usize = 0;
    let mut ends_space = false;
    let mut i: usize = 0;
    assert(chars@.take(0) == Seq::<char>::empty());
    while i < chars.len()
        invariant
            max == max_chars as nat,
            max_chars >= 1,
            chars@ == text@,
            chars.len() < usize::MAX,
            i <= chars.len(),
            split_on(chars@.take(i as int), '\n') == paras.push(para),
            total as nat == total_lines(paras, max),
            para.len() == 0 ==> words.len() == 0 && word.len() == 0 && wlen == 0,
            para.len() > 0 ==> split_words(para) == words.push(word) && word.len() >= 1,
            wlen as nat == word.len(),
            ends_space == (word.len() > 0 && word.last() == ' '),
            (lines as nat, col as nat) == place_words(words, max),
            col as nat <= total_len(words),
            total_len(words) + word.len() == para.len(),
            total + lines + wlen <= i + 1,
            lines + col <= 1 + total_len(words),
            para.len() <= i,
            lines >= 1,
        decreases chars.len() - i,
    {
        let c = chars[i];
        let ghost pre = chars@.take(i as int);
        assert(chars@.take(i + 1) == pre.push(c));
        assert(chars@.take(i + 1).drop_last() == pre);
        if c == '\n' {
            let add: usize = if wlen == 0 {
                1
            } else {
                proof {
                    lemma_place_word_bound(lines as nat, col as nat, wlen as nat, max);
                }
                place_word_exec(lines, col, wlen, max_chars).0
            };
            proof {
                if para.len() > 0 {
                    assert(split_words(para).drop_last() == words);
                    assert(split_words(para).last() == word);
                    assert(paragraph_lines(para, max) == place_words(words.push(word), max).0);
                    assert(words.push(word).drop_last() == words);
                } else {
                    assert(paragraph_lines(para, max) == 1);
                }
                assert(paras.push(para).drop_last() == paras);
                paras = paras.push(para);
                para = Seq::empty();
                words = Seq::empty();
                word = Seq::empty();
            }
            total = total + add;
            lines = 1;
            col = 0;
            wlen = 0;
            ends_space = false;
            assert(total_len(Seq::<Seq<char>>::empty()) == 0);
        } else {
            proof {
                let r = paras.push(para);
                assert(r.last() == para);
                assert(r.update(r.len() - 1, para.push(c)) == paras.push(para.push(c)));
                assert(para.push(c).drop_last() == para);
                assert(para.push(c).last() == c);
            }
            if wlen == 0 {
                // The paragraph's first character starts its first word.
                proof {
                    assert(para.len() == 0);
                    assert(para.push(c) == seq![c]);
                    assert(seq![c].drop_last() == Seq::<char>::empty());
                    assert(split_words(Seq::<char>::empty()) == Seq::<Seq<char>>::empty());
                    assert(split_words(para.push(c)) == seq![seq![c]]);
                    para = para.push(c);
                    word = seq![c];
                }
                wlen = 1;
                ends_space = c == ' ';
            } else if ends_space {
                // The word before ends with a space: `c` starts a new one.
                proof {
                    lemma_place_word_bound(lines as nat, col as nat, wlen as nat, max);
                }
                let placed = place_word_exec(lines, col, wlen, max_chars);
                proof {
                    let sw = words.push(word);
                    assert(split_words(para) == sw);
                    assert(sw.last() == word);
                    assert(split_words(para.push(c)) == sw.push(seq![c]));
                    assert(sw.drop_last() == words);
                    assert(total_len(sw) == total_len(words) + word.len());
                    para = para.push(c);
                    words = sw;
                    word = seq![c];
                }
                lines = placed.0;
                col = placed.1;
                wlen = 1;
                ends_space = c == ' ';
            } else {
                // `c` continues the word.
                proof {
                    let sw = words.push(word);
                    assert(split_words(para) == sw);
                    assert(sw.update(sw.len() - 1, word.push(c)) == words.push(word.push(c)));
                    assert(split_words(para.push(c)) == words.push(word.push(c)));
                    para = para.push(c);
                    word = word.push(c);
                }
                wlen = wlen + 1;
                ends_space = c == ' ';
            }
        }
        i += 1;
    }
    assert(chars@.take(chars.len() as int) == chars@);
    let add: usize = if wlen == 0 {
        1
    } else {
        proof {
            lemma_place_word_bound(lines as nat, col as nat, wlen as nat, max);
        }
        place_word_exec(lines, col, wlen, max_chars).0
    };
    proof {
        if para.len() > 0 {
            assert(split_words(para).drop_last() == words);
            assert(split_words(para).last() == word);
            assert(words.push(word).drop_last() == words);
        }
        assert(paras.push(para).drop_last() == paras);
    }
    total = total + add;
    if total < 1 {
        1
    } else {
        total
    }
}

} // verus!
