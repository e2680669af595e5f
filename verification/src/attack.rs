//! The byte-at-a-time ECB recovery attack.  The attacker controls the bytes
//! in front of the oracle's hidden suffix; by sending just enough filler to
//! push the next unknown byte to the last position of a block, and
//! comparing that block against a dictionary of the 256 possible
//! completions, the suffix is recovered one byte per round, without the
//! key.

use vstd::prelude::*;

use crate::bytes::{bytes_equal, repeat_byte, subvec};
use crate::cipher::{aes128_dec, aes128_enc, BLOCK_SIZE};
use crate::detect::{has_repeated_block, repeated_blocks};
use crate::errors::CryptoError;
use crate::modes::{block_at, lemma_ecb_enc_len, lemma_ecb_repeats_identical_blocks};
use crate::oracle::{oracle_ct, EcbOracle};
use crate::padding::{lemma_pad_round_trip, pad_spec};

verus! {

/// The filler byte the attack pads its queries with.
pub const FILLER_BYTE: u8 = 42;

/// `n` filler bytes.
pub open spec fn filler_seq(n: int) -> Seq<u8> {
    Seq::new(n as nat, |i: int| FILLER_BYTE)
}

/// How many filler bytes the attack sends in round `i`: enough to push the
/// `i`-th unknown byte to the last position of a block.
pub open spec fn round_filler(i: int) -> int {
    BLOCK_SIZE - 1 - i % (BLOCK_SIZE as int)
}

/// The byte offset of the block the attack watches in round `i`.
pub open spec fn round_step(i: int) -> int {
    i - i % (BLOCK_SIZE as int)
}

/// The query `build_dict` sends for candidate byte `b`: filler up to one
/// short of a block boundary past `known`, then all of `known`, then `b`.
pub open spec fn dict_query(known: Seq<u8>, block_size: int, b: u8) -> Seq<u8> {
    filler_seq(block_size - 1 - known.len() as int % block_size) + known + seq![b]
}

/// The first `BLOCK_SIZE - 1` bytes of the block watched in round `i`, as
/// they stand in any round-`i` query whose non-filler bytes are drawn from
/// `s`: filler up to the boundary, then the first `i` bytes of `s` pushed
/// into view.
pub open spec fn watch_prefix(s: Seq<u8>, i: int) -> Seq<u8>
    recommends
        0 <= i <= s.len(),
{
    Seq::new(
        (BLOCK_SIZE - 1) as nat,
        |p: int|
            if round_step(i) + p < round_filler(i) {
                FILLER_BYTE
            } else {
                s[round_step(i) + p - round_filler(i)]
            },
    )
}

/// Arithmetic shared by every round: the filler length is under one block,
/// the watched offset is block-aligned, and the `i`-th unknown byte lands
/// exactly at the end of the watched block.
proof fn lemma_round_arith(i: int)
    requires
        0 <= i,
    ensures
        0 <= round_filler(i) < BLOCK_SIZE,
        0 <= round_step(i) <= i,
        round_step(i) % (BLOCK_SIZE as int) == 0,
        round_step(i) == (i / (BLOCK_SIZE as int)) * (BLOCK_SIZE as int),
        round_filler(i) + i == round_step(i) + BLOCK_SIZE - 1,
{
    vstd::arithmetic::div_mod::lemma_fundamental_div_mod(i, BLOCK_SIZE as int);
    vstd::arithmetic::div_mod::lemma_mod_bound(i, BLOCK_SIZE as int);
    vstd::arithmetic::mul::lemma_mul_is_commutative(BLOCK_SIZE as int, i / (BLOCK_SIZE as int));
    vstd::arithmetic::div_mod::lemma_mod_multiples_basic(
        i / (BLOCK_SIZE as int),
        BLOCK_SIZE as int,
    );
}

/// The block the target query exposes in round `i`, for `i` up to the
/// suffix length: the watch prefix followed by the next secret byte, or,
/// one round past the end, by the first byte of the oracle's own padding,
/// which is always the value 1.
proof fn lemma_target_window(s: Seq<u8>, i: int)
    requires
        0 <= i <= s.len(),
    ensures
        round_step(i) + BLOCK_SIZE <= pad_spec(
            filler_seq(round_filler(i)) + s,
            BLOCK_SIZE as nat,
        ).len(),
        i < s.len() ==> block_at(
            pad_spec(filler_seq(round_filler(i)) + s, BLOCK_SIZE as nat),
            BLOCK_SIZE as int,
            i / (BLOCK_SIZE as int),
        ) == watch_prefix(s, i) + seq![s[i]],
        i == s.len() ==> block_at(
            pad_spec(filler_seq(round_filler(i)) + s, BLOCK_SIZE as nat),
            BLOCK_SIZE as int,
            i / (BLOCK_SIZE as int),
        ) == watch_prefix(s, i) + seq![1u8],
{
    lemma_round_arith(i);
    let f = round_filler(i);
    let st = round_step(i);
    let arg = filler_seq(f) + s;
    let p = pad_spec(arg, BLOCK_SIZE as nat);
    lemma_pad_round_trip(arg, BLOCK_SIZE as nat);
    assert(arg.len() == f + s.len());
    if i < s.len() {
        assert(st + BLOCK_SIZE <= arg.len());
        let w = watch_prefix(s, i) + seq![s[i]];
        assert forall|q: int| 0 <= q < BLOCK_SIZE implies block_at(
            p,
            BLOCK_SIZE as int,
            i / (BLOCK_SIZE as int),
        )[q] == w[q] by {
            assert(block_at(p, BLOCK_SIZE as int, i / (BLOCK_SIZE as int))[q] == p[st + q]);
            assert(p[st + q] == arg[st + q]);
        }
        assert(block_at(p, BLOCK_SIZE as int, i / (BLOCK_SIZE as int)) =~= w);
    } else {
        // The watched block's last byte is the oracle padding's first byte.
        assert(arg.len() == st + BLOCK_SIZE - 1);
        assert((st + BLOCK_SIZE - 1) % (BLOCK_SIZE as int) == BLOCK_SIZE - 1) by {
            vstd::arithmetic::div_mod::lemma_mod_multiples_vanish(
                st / (BLOCK_SIZE as int),
                BLOCK_SIZE - 1,
                BLOCK_SIZE as int,
            );
            vstd::arithmetic::div_mod::lemma_fundamental_div_mod(st, BLOCK_SIZE as int);
            vstd::arithmetic::div_mod::lemma_small_mod(
                (BLOCK_SIZE - 1) as nat,
                BLOCK_SIZE as nat,
            );
        }
        assert(p.len() == st + BLOCK_SIZE);
        assert(p[st + BLOCK_SIZE - 1] == 1u8);
        let w = watch_prefix(s, i) + seq![1u8];
        assert forall|q: int| 0 <= q < BLOCK_SIZE implies block_at(
            p,
            BLOCK_SIZE as int,
            i / (BLOCK_SIZE as int),
        )[q] == w[q] by {
            assert(block_at(p, BLOCK_SIZE as int, i / (BLOCK_SIZE as int))[q] == p[st + q]);
            if q < BLOCK_SIZE - 1 {
                assert(p[st + q] == arg[st + q]);
            }
        }
        assert(block_at(p, BLOCK_SIZE as int, i / (BLOCK_SIZE as int)) =~= w);
    }
}

/// One round past the oracle padding's first byte, the target query's
/// watched block carries the value 2 at its second-to-last position, where
/// every dictionary query carries the 1 recovered in the round before: no
/// dictionary entry can match, and the attack stops.
proof fn lemma_target_window_past(s: Seq<u8>, i: int)
    requires
        i == s.len() + 1,
    ensures
        round_step(i) + BLOCK_SIZE <= pad_spec(
            filler_seq(round_filler(i)) + s,
            BLOCK_SIZE as nat,
        ).len(),
        block_at(
            pad_spec(filler_seq(round_filler(i)) + s, BLOCK_SIZE as nat),
            BLOCK_SIZE as int,
            i / (BLOCK_SIZE as int),
        )[BLOCK_SIZE - 2] == 2u8,
{
    lemma_round_arith(i);
    let f = round_filler(i);
    let st = round_step(i);
    let arg = filler_seq(f) + s;
    let p = pad_spec(arg, BLOCK_SIZE as nat);
    lemma_pad_round_trip(arg, BLOCK_SIZE as nat);
    assert(arg.len() == st + BLOCK_SIZE - 2);
    assert((st + BLOCK_SIZE - 2) % (BLOCK_SIZE as int) == BLOCK_SIZE - 2) by {
        vstd::arithmetic::div_mod::lemma_mod_multiples_vanish(
            st / (BLOCK_SIZE as int),
            BLOCK_SIZE - 2,
            BLOCK_SIZE as int,
        );
        vstd::arithmetic::div_mod::lemma_fundamental_div_mod(st, BLOCK_SIZE as int);
        vstd::arithmetic::div_mod::lemma_small_mod((BLOCK_SIZE - 2) as nat, BLOCK_SIZE as nat);
    }
    assert(p.len() == st + BLOCK_SIZE);
    assert(p[st + BLOCK_SIZE - 2] == 2u8);
    assert(block_at(p, BLOCK_SIZE as int, i / (BLOCK_SIZE as int))[BLOCK_SIZE - 2] == p[st
        + BLOCK_SIZE - 2]);
}

/// The block a dictionary query exposes: the watch prefix over the already
/// recovered bytes, followed by the candidate byte itself.
proof fn lemma_dict_window(s: Seq<u8>, r: Seq<u8>, b: u8)
    ensures
        dict_query(r, BLOCK_SIZE as int, b).len() == round_step(r.len() as int) + BLOCK_SIZE,
        round_step(r.len() as int) + BLOCK_SIZE <= pad_spec(
            dict_query(r, BLOCK_SIZE as int, b) + s,
            BLOCK_SIZE as nat,
        ).len(),
        block_at(
            pad_spec(dict_query(r, BLOCK_SIZE as int, b) + s, BLOCK_SIZE as nat),
            BLOCK_SIZE as int,
            r.len() as int / (BLOCK_SIZE as int),
        ) == watch_prefix(r, r.len() as int) + seq![b],
{
    let i = r.len() as int;
    lemma_round_arith(i);
    let f = round_filler(i);
    let st = round_step(i);
    let q = dict_query(r, BLOCK_SIZE as int, b);
    assert(q.len() == f + i + 1);
    let arg = q + s;
    let p = pad_spec(arg, BLOCK_SIZE as nat);
    lemma_pad_round_trip(arg, BLOCK_SIZE as nat);
    let w = watch_prefix(r, i) + seq![b];
    assert forall|x: int| 0 <= x < BLOCK_SIZE implies block_at(
        p,
        BLOCK_SIZE as int,
        i / (BLOCK_SIZE as int),
    )[x] == w[x] by {
        assert(block_at(p, BLOCK_SIZE as int, i / (BLOCK_SIZE as int))[x] == p[st + x]);
        assert(p[st + x] == arg[st + x]);
        assert(arg[st + x] == q[st + x]);
    }
    assert(block_at(p, BLOCK_SIZE as int, i / (BLOCK_SIZE as int)) =~= w);
}


/// One dictionary entry: the ciphertext block a candidate byte produced,
/// and the candidate byte itself.
pub struct DictEntry {
    pub block: Vec<u8>,
    pub byte: u8,
}

/// What `build_dict` promises of its `t`-th entry: the stored block is the
/// watched block of the oracle's answer to the query for candidate byte
/// `t`, and (at the true block size) it is the primitive's image of the
/// padded query's watched block and decrypts back to it.
pub open spec fn dict_entry_ok(
    key: Seq<u8>,
    suffix: Seq<u8>,
    known: Seq<u8>,
    block_size: int,
    t: int,
    entry: DictEntry,
) -> bool {
    let q = dict_query(known, block_size, t as u8);
    let j = known.len() as int / block_size;
    &&& entry.byte == t as u8
    &&& entry.block@ == block_at(oracle_ct(key, suffix, q), block_size, j)
    &&& (block_size == BLOCK_SIZE ==> entry.block@ == aes128_enc(
        key,
        block_at(pad_spec(q + suffix, BLOCK_SIZE as nat), block_size, j),
    ))
    &&& (block_size == BLOCK_SIZE ==> aes128_dec(key, entry.block@) == block_at(
        pad_spec(q + suffix, BLOCK_SIZE as nat),
        block_size,
        j,
    ))
}

/// Builds a dictionary from the known plaintext: for every candidate byte,
/// the ciphertext block the oracle answers when that byte is pushed to the
/// end of the watched block.
pub fn build_dict(oracle: &EcbOracle, known_plaintext: &Vec<u8>, blocksize: usize) -> (dict: Vec<
    DictEntry,
>)
    requires
        oracle.wf(),
        blocksize >= 1,
    ensures
        dict@.len() == 256,
        forall|t: int|
            0 <= t < 256 ==> dict_entry_ok(
                oracle.key(),
                oracle.suffix(),
                known_plaintext@,
                blocksize as int,
                t,
                #[trigger] dict@[t],
            ),
{
    let n = known_plaintext.len();
    let filler_len = blocksize - 1 - n % blocksize;
    let mut dict: Vec<DictEntry> = Vec::with_capacity(256);
    let mut t: usize = 0;
    while t < 256
        invariant
            t <= 256,
            oracle.wf(),
            blocksize >= 1,
            dict@.len() == t,
            n == known_plaintext@.len(),
            n <= usize::MAX,
            filler_len == blocksize - 1 - (n as int % blocksize as int),
            forall|q: int|
                0 <= q < t ==> dict_entry_ok(
                    oracle.key(),
                    oracle.suffix(),
                    known_plaintext@,
                    blocksize as int,
                    q,
                    #[trigger] dict@[q],
                ),
        decreases 256 - t,
    {
        let b = t as u8;
        let mut mes = repeat_byte(FILLER_BYTE, filler_len);
        let mut kcopy = subvec(known_plaintext, 0, n);
        mes.append(&mut kcopy);
        mes.push(b);
        let qlen = mes.len();
        let ghost bs = blocksize as int;
        let ghost j = n as int / bs;
        proof {
            assert(mes@ =~= dict_query(known_plaintext@, bs, b));
            vstd::arithmetic::div_mod::lemma_fundamental_div_mod(n as int, bs);
            vstd::arithmetic::div_mod::lemma_mod_bound(n as int, bs);
            vstd::arithmetic::mul::lemma_mul_is_commutative(bs, j);
            assert(qlen as int == j * bs + bs);
        }
        let ct = oracle.encrypt(&mes);
        proof {
            assert(ct@.len() >= qlen as int + 1);
            if blocksize == BLOCK_SIZE {
                // The watched block index is inside the answer.
                assert((j + 1) * (BLOCK_SIZE as int) == j * bs + bs) by (nonlinear_arith)
                    requires
                        bs == BLOCK_SIZE as int,
                ;
                vstd::arithmetic::div_mod::lemma_div_is_ordered(
                    (j + 1) * (BLOCK_SIZE as int),
                    ct@.len() as int,
                    BLOCK_SIZE as int,
                );
                vstd::arithmetic::div_mod::lemma_div_by_multiple(j + 1, BLOCK_SIZE as int);
            }
        }
        let target = subvec(&ct, qlen - blocksize, qlen);
        proof {
            assert(target@ =~= block_at(ct@, bs, j));
        }
        dict.push(DictEntry { block: target, byte: b });
        t = t + 1;
    }
    dict
}

/// Look a ciphertext block up in the dictionary: the byte of the first
/// entry whose block matches, if any does.
pub fn dict_lookup(dict: &Vec<DictEntry>, target: &Vec<u8>) -> (r: Option<u8>)
    ensures
        r matches Some(b) ==> exists|t: int|
            0 <= t < dict@.len() && #[trigger] dict@[t].block@ == target@ && dict@[t].byte == b,
        r is None ==> forall|t: int| 0 <= t < dict@.len() ==> #[trigger] dict@[t].block@ != target@,
{
    let mut t: usize = 0;
    while t < dict.len()
        invariant
            t <= dict@.len(),
            forall|q: int| 0 <= q < t ==> #[trigger] dict@[q].block@ != target@,
        decreases dict@.len() - t,
    {
        if bytes_equal(&dict[t].block, target) {
            return Some(dict[t].byte);
        }
        t = t + 1;
    }
    None
}

/// The probe `detect_blocksize` sends for a guessed block size: two
/// identical chunks of that size, then one odd byte.
pub open spec fn probe_message(block_size: int) -> Seq<u8> {
    filler_seq(2 * block_size) + seq![3u8]
}

/// The probe for `block_size` comes back block-aligned with a repeated
/// block: the structural signature the detector accepts.
pub open spec fn probe_hit(key: Seq<u8>, suffix: Seq<u8>, block_size: int) -> bool {
    let ct = oracle_ct(key, suffix, probe_message(block_size));
    ct.len() as int % block_size == 0 && has_repeated_block(ct, block_size)
}

/// `block_size` is what the probing loop reports: the smallest guess from
/// 2 up whose probe comes back with a repeated block.
pub open spec fn detected_blocksize(key: Seq<u8>, suffix: Seq<u8>, block_size: int) -> bool {
    &&& probe_hit(key, suffix, block_size)
    &&& forall|b: int| 2 <= b < block_size ==> !probe_hit(key, suffix, b)
}

/// Probing with the cipher's real block size always hits: the probe's two
/// identical leading blocks encrypt to identical ciphertext blocks.
proof fn lemma_probe_hits_true_blocksize(key: Seq<u8>, suffix: Seq<u8>)
    ensures
        probe_hit(key, suffix, BLOCK_SIZE as int),
{
    let q = probe_message(BLOCK_SIZE as int);
    let arg = q + suffix;
    let p = pad_spec(arg, BLOCK_SIZE as nat);
    lemma_pad_round_trip(arg, BLOCK_SIZE as nat);
    let ct = oracle_ct(key, suffix, q);
    lemma_ecb_enc_len(key, p);
    assert(block_at(p, BLOCK_SIZE as int, 0) =~= filler_seq(BLOCK_SIZE as int));
    assert(block_at(p, BLOCK_SIZE as int, 1) =~= filler_seq(BLOCK_SIZE as int));
    lemma_ecb_repeats_identical_blocks(key, p, 0, 1);
    assert(ct.len() >= 2 * BLOCK_SIZE + 2);
    vstd::arithmetic::div_mod::lemma_div_is_ordered(
        2 * (BLOCK_SIZE as int),
        ct.len() as int,
        BLOCK_SIZE as int,
    );
    vstd::arithmetic::div_mod::lemma_div_by_multiple(2, BLOCK_SIZE as int);
    assert(0 <= 0 < 1 < ct.len() as int / (BLOCK_SIZE as int) && block_at(
        ct,
        BLOCK_SIZE as int,
        0,
    ) == block_at(ct, BLOCK_SIZE as int, 1));
    assert(has_repeated_block(ct, BLOCK_SIZE as int));
}

/// Detect the block size used by the encryption oracle: probe guesses from
/// 2 up with two identical chunks of the guessed size and accept the first
/// guess whose answer shows a repeated block.  The cipher's real block size
/// always hits, so the reported size is at most `BLOCK_SIZE`.
pub fn detect_blocksize(oracle: &EcbOracle) -> (r: usize)
    requires
        oracle.wf(),
    ensures
        2 <= r <= BLOCK_SIZE,
        detected_blocksize(oracle.key(), oracle.suffix(), r as int),
{
    let mut bs: usize = 2;
    while bs < 100
        invariant
            oracle.wf(),
            2 <= bs <= BLOCK_SIZE,
            forall|b: int| 2 <= b < bs ==> !probe_hit(oracle.key(), oracle.suffix(), b),
        decreases 100 - bs,
    {
        let mut mes = repeat_byte(FILLER_BYTE, 2 * bs);
        mes.push(3);
        proof {
            assert(mes@ =~= probe_message(bs as int));
        }
        let ct = oracle.encrypt(&mes);
        let hit = match repeated_blocks(&ct, bs) {
            Ok(true) => true,
            _ => false,
        };
        if hit {
            return bs;
        }
        proof {
            assert(!probe_hit(oracle.key(), oracle.suffix(), bs as int));
            if bs == BLOCK_SIZE {
                lemma_probe_hits_true_blocksize(oracle.key(), oracle.suffix());
            }
        }
        bs = bs + 1;
    }
    // Unreachable: the probe at the cipher's real block size returns above.
    proof {
        assert(false);
    }
    bs
}

/// Recover the full plaintext hidden behind the attacker-controlled bytes,
/// one byte per round: at round `i`, just enough filler pushes the `i`-th
/// unknown byte to the last position of a block; a dictionary of all 256
/// completions of the known prefix identifies it.  The attack stops at the
/// first round whose watched block matches no dictionary entry, and strips
/// the one byte of oracle padding it inevitably picks up on the way.
///
/// Run at the cipher's true block size, the attack recovers the oracle's
/// hidden suffix exactly, whatever its contents and length.
pub fn get_plaintext(oracle: &EcbOracle, blocksize: usize) -> (r: Vec<u8>)
    requires
        oracle.wf(),
        blocksize >= 1,
    ensures
        blocksize == BLOCK_SIZE ==> r@ == oracle.suffix(),
{
    let ghost key = oracle.key();
    let ghost s = oracle.suffix();
    let empty: Vec<u8> = Vec::new();
    let oracle_length = oracle.encrypt(&empty).len();
    proof {
        assert(empty@ + s =~= s);
    }
    let mut plaintext: Vec<u8> = Vec::new();
    let mut i: usize = 0;
    while i < oracle_length
        invariant_except_break
            oracle.wf(),
            key == oracle.key(),
            s == oracle.suffix(),
            blocksize >= 1,
            i <= oracle_length,
            oracle_length == pad_spec(s, BLOCK_SIZE as nat).len(),
            s.len() < oracle_length <= s.len() + BLOCK_SIZE,
            plaintext@.len() == i,
            blocksize == BLOCK_SIZE ==> i <= s.len() + 1,
            blocksize == BLOCK_SIZE && i <= s.len() ==> plaintext@ == s.take(i as int),
            blocksize == BLOCK_SIZE && i == s.len() + 1 ==> plaintext@ == s + seq![1u8],
        ensures
            blocksize == BLOCK_SIZE ==> plaintext@ == s + seq![1u8],
        decreases oracle_length - i,
    {
        let dict = build_dict(oracle, &plaintext, blocksize);
        let mes = repeat_byte(FILLER_BYTE, blocksize - 1 - i % blocksize);
        let ct = oracle.encrypt(&mes);
        proof {
            vstd::arithmetic::div_mod::lemma_fundamental_div_mod(i as int, blocksize as int);
            vstd::arithmetic::div_mod::lemma_mod_bound(i as int, blocksize as int);
            vstd::arithmetic::mul::lemma_mul_is_commutative(
                blocksize as int,
                i as int / blocksize as int,
            );
        }
        let step = i / blocksize * blocksize;
        let ghost ii = i as int;
        let ghost j = ii / (BLOCK_SIZE as int);
        proof {
            if blocksize == BLOCK_SIZE {
                lemma_round_arith(ii);
                assert(mes@ =~= filler_seq(round_filler(ii)));
                assert(step as int == round_step(ii));
                if ii <= s.len() {
                    lemma_target_window(s, ii);
                } else {
                    lemma_target_window_past(s, ii);
                }
                assert(round_step(ii) + BLOCK_SIZE <= ct@.len());
                assert((j + 1) * (BLOCK_SIZE as int) == round_step(ii) + BLOCK_SIZE);
                vstd::arithmetic::div_mod::lemma_div_is_ordered(
                    (j + 1) * (BLOCK_SIZE as int),
                    ct@.len() as int,
                    BLOCK_SIZE as int,
                );
                vstd::arithmetic::div_mod::lemma_div_by_multiple(j + 1, BLOCK_SIZE as int);
                assert(j < ct@.len() as int / (BLOCK_SIZE as int));
            }
        }
        if ct.len() < blocksize || step > ct.len() - blocksize {
            proof {
                assert(blocksize != BLOCK_SIZE);
            }
            break;
        }
        let target = subvec(&ct, step, step + blocksize);
        let looked = dict_lookup(&dict, &target);
        proof {
            if blocksize == BLOCK_SIZE {
                let padded = pad_spec(mes@ + s, BLOCK_SIZE as nat);
                let w_t = block_at(padded, BLOCK_SIZE as int, j);
                assert(target@ =~= block_at(ct@, BLOCK_SIZE as int, j));
                assert(target@ == aes128_enc(key, w_t));
                assert(aes128_dec(key, target@) == w_t);
                if ii <= s.len() {
                    // The next byte: the secret's, or the oracle padding's 1.
                    let x: u8 = if ii < s.len() { s[ii] } else { 1u8 };
                    assert(w_t == watch_prefix(s, ii) + seq![x]);
                    assert(watch_prefix(plaintext@, ii) =~= watch_prefix(s, ii));
                    match looked {
                        Some(byte) => {
                            let t = choose|t: int|
                                0 <= t < dict@.len() && #[trigger] dict@[t].block@ == target@
                                    && dict@[t].byte == byte;
                            lemma_dict_window(s, plaintext@, t as u8);
                            let w_d = watch_prefix(plaintext@, ii) + seq![t as u8];
                            assert(aes128_dec(key, dict@[t].block@) == w_d);
                            assert(w_d == w_t);
                            assert(w_d[BLOCK_SIZE - 1] == w_t[BLOCK_SIZE - 1]);
                            assert(byte == x);
                        },
                        None => {
                            let t = x as int;
                            assert(dict_entry_ok(key, s, plaintext@, BLOCK_SIZE as int, t, dict@[t]));
                            lemma_dict_window(s, plaintext@, x);
                            assert(dict@[t].block@ == aes128_enc(
                                key,
                                watch_prefix(plaintext@, ii) + seq![x],
                            ));
                            assert(watch_prefix(plaintext@, ii) + seq![x] =~= w_t);
                            assert(dict@[t].block@ == target@);
                            assert(false);
                        },
                    }
                } else {
                    // One round past the padding byte already recovered: the
                    // target block holds a 2 where every dictionary query
                    // holds the 1, so nothing can match.
                    assert(w_t[BLOCK_SIZE - 2] == 2u8);
                    match looked {
                        Some(byte) => {
                            let t = choose|t: int|
                                0 <= t < dict@.len() && #[trigger] dict@[t].block@ == target@
                                    && dict@[t].byte == byte;
                            lemma_dict_window(s, plaintext@, t as u8);
                            let w_d = watch_prefix(plaintext@, ii) + seq![t as u8];
                            assert(aes128_dec(key, dict@[t].block@) == w_d);
                            assert(w_d == w_t);
                            assert(w_d[BLOCK_SIZE - 2] == plaintext@[ii - 1]);
                            assert(plaintext@[ii - 1] == 1u8);
                            assert(false);
                        },
                        None => {},
                    }
                }
            }
        }
        match looked {
            Some(byte) => {
                proof {
                    if blocksize == BLOCK_SIZE && ii < s.len() {
                        assert(plaintext@.push(byte) =~= s.take(ii + 1));
                    }
                    if blocksize == BLOCK_SIZE && ii == s.len() {
                        assert(plaintext@.push(byte) =~= s + seq![1u8]);
                    }
                }
                plaintext.push(byte);
            },
            None => {
                break;
            },
        }
        i = i + 1;
    }
    // Strip the oracle padding the loop picked up, interpreted by the
    // padding rule: the trailing length byte says how much to drop.
    if plaintext.len() > 0 {
        let count = plaintext[plaintext.len() - 1];
        if count as usize <= plaintext.len() {
            let keep = plaintext.len() - count as usize;
            plaintext.truncate(keep);
        }
    }
    proof {
        if blocksize == BLOCK_SIZE {
            assert(plaintext@ =~= s);
        }
    }
    plaintext
}

/// Break the ECB: detect the oracle's block size by probing, then run the
/// byte-at-a-time recovery at that size.  Probing always hits at the
/// cipher's real block size, so detection cannot come back empty; when the
/// real block size is also the first hit, the recovered bytes are exactly
/// the hidden suffix.
pub fn break_ecb(oracle: &EcbOracle) -> (r: Result<Vec<u8>, CryptoError>)
    requires
        oracle.wf(),
    ensures
        r is Ok,
        r matches Ok(p) ==> (detected_blocksize(
            oracle.key(),
            oracle.suffix(),
            BLOCK_SIZE as int,
        ) ==> p@ == oracle.suffix()),
{
    let blocksize = detect_blocksize(oracle);
    if blocksize == 0 {
        Err(CryptoError::ModeNotEcb)
    } else {
        let plaintext = get_plaintext(oracle, blocksize);
        proof {
            if detected_blocksize(oracle.key(), oracle.suffix(), BLOCK_SIZE as int) {
                assert(blocksize == BLOCK_SIZE);
            }
        }
        Ok(plaintext)
    }
}

} // verus!
