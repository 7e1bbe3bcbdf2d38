//! The default text tokenizer: splits on any byte that is not an ASCII
//! letter or digit and lowercases ASCII letters. Token positions are the
//! consecutive indices of the tokens in the stream.

use vstd::prelude::*;

verus! {

/// The byte sequences of a list of byte vectors.
pub open spec fn deep_bytes(s: Seq<Vec<u8>>) -> Seq<Seq<u8>> {
    s.map_values(|t: Vec<u8>| t@)
}

/// A byte that belongs to a token (ASCII letter or digit).
pub open spec fn is_word_byte(b: u8) -> bool {
    (97 <= b <= 122) || (65 <= b <= 90) || (48 <= b <= 57)
}

/// ASCII lowercase folding of one byte.
pub open spec fn lower_byte(b: u8) -> u8 {
    if 65 <= b <= 90 {
        (b + 32) as u8
    } else {
        b
    }
}

/// One step of the tokenizer state machine: the accumulated tokens plus
/// whether the previous byte was inside a token.
pub open spec fn tok_step(acc: (Seq<Seq<u8>>, bool), b: u8) -> (Seq<Seq<u8>>, bool) {
    if is_word_byte(b) {
        if acc.1 {
            (acc.0.update(acc.0.len() - 1, acc.0.last().push(lower_byte(b))), true)
        } else {
            (acc.0.push(seq![lower_byte(b)]), true)
        }
    } else {
        (acc.0, false)
    }
}

/// The tokenizer state after consuming the first `n` bytes.
pub open spec fn tokens_upto(s: Seq<u8>, n: int) -> (Seq<Seq<u8>>, bool)
    decreases n,
{
    if n <= 0 {
        (Seq::empty(), false)
    } else {
        tok_step(tokens_upto(s, n - 1), s[n - 1])
    }
}

/// The tokens of a byte string.
pub open spec fn spec_tokens(s: Seq<u8>) -> Seq<Seq<u8>> {
    tokens_upto(s, s.len() as int).0
}

/// A text never yields more tokens than it has bytes.
pub proof fn lemma_tokens_len(s: Seq<u8>, n: int)
    requires
        0 <= n <= s.len(),
    ensures
        tokens_upto(s, n).0.len() <= n,
        tokens_upto(s, n).1 ==> tokens_upto(s, n).0.len() > 0,
    decreases n,
{
    if n > 0 {
        lemma_tokens_len(s, n - 1);
    }
}

/// Tokenizes a byte string. The result is exactly `spec_tokens` of the
/// input.
pub fn tokenize_bytes(s: &Vec<u8>) -> (r: Vec<Vec<u8>>)
    ensures
        deep_bytes(r@) == spec_tokens(s@),
        r@.len() <= s@.len(),
{
    let mut done: Vec<Vec<u8>> = Vec::new();
    let mut current: Vec<u8> = Vec::new();
    let mut in_token = false;
    let mut i: usize = 0;
    while i < s.len()
        invariant
            i <= s@.len(),
            tokens_upto(s@, i as int) == (
                if in_token {
                    deep_bytes(done@).push(current@)
                } else {
                    deep_bytes(done@)
                },
                in_token,
            ),
            !in_token ==> current@.len() == 0,
        decreases s@.len() - i,
    {
        let ghost prev = tokens_upto(s@, i as int);
        let b = s[i];
        let word = (b >= 97 && b <= 122) || (b >= 65 && b <= 90) || (b >= 48 && b <= 57);
        if word {
            let lowered = if b >= 65 && b <= 90 {
                b + 32
            } else {
                b
            };
            if in_token {
                let ghost old_cur = current@;
                current.push(lowered);
                proof {
                    let m = deep_bytes(done@);
                    assert(current@ == old_cur.push(lowered));
                    assert(prev.0 == m.push(old_cur));
                    assert(prev.0.update(prev.0.len() - 1, prev.0.last().push(lowered)) =~= m.push(
                        current@,
                    ));
                }
            } else {
                current.push(lowered);
                proof {
                    assert(current@ =~= seq![lowered]);
                }
                in_token = true;
            }
        } else {
            if in_token {
                let ghost m = deep_bytes(done@);
                done.push(current);
                current = Vec::new();
                in_token = false;
                proof {
                    assert(deep_bytes(done@) =~= m.push(done@.last()@));
                }
            }
            proof {
                assert(deep_bytes(done@) == tokens_upto(s@, i as int + 1).0);
            }
        }
        i += 1;
        proof {
            lemma_tokens_len(s@, i as int);
        }
    }
    if in_token {
        let ghost m = deep_bytes(done@);
        done.push(current);
        proof {
            assert(deep_bytes(done@) =~= m.push(done@.last()@));
        }
    }
    proof {
        lemma_tokens_len(s@, s@.len() as int);
    }
    done
}

} // verus!
