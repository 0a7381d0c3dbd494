//! SHA-256 digests as hexadecimal text, and Merkle roots over them.

use crate::text;
use sha2::Digest;
use sha2::Sha256;
use vstd::prelude::*;

verus! {

/// The SHA-256 digest of a message.
pub uninterp spec fn sha256_digest(data: Seq<u8>) -> Seq<u8>;

/// `Sha256::new`, `update` and `finalize` hash a message. The digest depends on
/// the message alone and has 32 bytes.
#[verifier::external_body]
fn sha256(data: &[u8]) -> (digest: Vec<u8>)
    ensures
        digest@ == sha256_digest(data@),
        digest@.len() == 32,
{
    let mut hasher = Sha256::new();
    hasher.update(data);
    hasher.finalize().to_vec()
}

/// The digest of a message as hexadecimal text.
pub open spec fn digest_text(data: Seq<u8>) -> Seq<char> {
    text::hex(sha256_digest(data))
}

/// A digest with the name of its algorithm.
pub open spec fn tagged(digest: Seq<u8>) -> Seq<char> {
    "sha256:"@ + text::hex(digest)
}

/// The digest of a message as hexadecimal text.
pub fn sha256_hex(data: &[u8]) -> (s: String)
    ensures
        s@ == digest_text(data@),
        s@.len() == 64,
{
    let digest = sha256(data);
    text::bytes_to_hex(digest.as_slice())
}

/// A hexadecimal text with the name of the algorithm before it.
pub fn with_algorithm(hex: &str) -> (s: String)
    ensures
        s@ == "sha256:"@ + hex@,
{
    let mut s: String = "sha256:".to_owned();
    s.push_str(hex);
    s
}

// ---------------------------------------------------------------------------
// Merkle Tree
// ---------------------------------------------------------------------------

/// The level above: the digest of each pair, where a last one without a
/// neighbour is paired with itself.
pub open spec fn level_above(level: Seq<Seq<u8>>) -> Seq<Seq<u8>> {
    Seq::new(
        (level.len() + 1) / 2,
        |i: int|
            sha256_digest(
                level[2 * i] + level[if 2 * i + 1 < level.len() {
                    2 * i + 1
                } else {
                    2 * i
                }],
            ),
    )
}

/// The digest at the top of the tree over the given level.
pub open spec fn top(level: Seq<Seq<u8>>) -> Seq<u8>
    recommends
        level.len() > 0,
    decreases level.len(),
{
    if level.len() <= 1 {
        level[0]
    } else {
        top(level_above(level))
    }
}

/// The text of the Merkle root. A tree without leaves has the digest of the
/// empty message.
pub open spec fn root_text(leaves: Seq<Seq<u8>>) -> Seq<char> {
    if leaves.len() == 0 {
        tagged(sha256_digest(Seq::empty()))
    } else {
        tagged(top(leaves))
    }
}

/// The bytes of digests.
pub open spec fn digests(level: Seq<Vec<u8>>) -> Seq<Seq<u8>> {
    level.map_values(|v: Vec<u8>| v@)
}

/// The digest of one message after another.
pub fn sha256_of_two(a: &[u8], b: &[u8]) -> (digest: Vec<u8>)
    ensures
        digest@ == sha256_digest(a@ + b@),
        digest@.len() == 32,
{
    let mut data: Vec<u8> = Vec::new();
    data.extend_from_slice(a);
    data.extend_from_slice(b);
    assert(data@ =~= a@ + b@);
    sha256(data.as_slice())
}

/// The text of the Merkle root over the given leaves.
pub fn merkle_root(leaves: Vec<Vec<u8>>) -> (root: String)
    ensures
        root@ == root_text(digests(leaves@)),
        (forall|i: int| 0 <= i < leaves@.len() ==> (#[trigger] leaves@[i])@.len() == 32)
            ==> root@.len() == "sha256:"@.len() + 64,
{
    if leaves.len() == 0 {
        let empty: Vec<u8> = Vec::new();
        let hex = sha256_hex(empty.as_slice());
        assert(empty@ =~= Seq::empty());
        return with_algorithm(hex.as_str());
    }
    let ghost start = digests(leaves@);
    let ghost full = forall|i: int| 0 <= i < leaves@.len() ==> (#[trigger] leaves@[i])@.len() == 32;
    let mut current: Vec<Vec<u8>> = leaves;
    while current.len() > 1
        invariant
            current@.len() > 0,
            top(digests(current@)) == top(start),
            full ==> forall|i: int|
                0 <= i < current@.len() ==> (#[trigger] current@[i])@.len() == 32,
        decreases current@.len(),
    {
        let ghost level = digests(current@);
        let count: usize = current.len();
        let mut next: Vec<Vec<u8>> = Vec::new();
        let pairs: usize = count / 2 + count % 2;
        let mut j: usize = 0;
        while j < pairs
            invariant
                j <= pairs,
                pairs == count / 2 + count % 2,
                count == current@.len() > 1,
                level == digests(current@),
                next@.len() == j,
                pairs == level_above(level).len(),
                forall|i: int|
                    0 <= i < j ==> (#[trigger] next@[i])@ == level_above(level)[i]
                        && next@[i]@.len() == 32,
            decreases pairs - j,
        {
            let first: usize = 2 * j;
            let second: usize = if first < count - 1 {
                first + 1
            } else {
                first
            };
            next.push(sha256_of_two(current[first].as_slice(), current[second].as_slice()));
            proof {
                assert(level[first as int] == current@[first as int]@);
                assert(level[second as int] == current@[second as int]@);
            }
            j = j + 1;
        }
        proof {
            assert(digests(next@) =~= level_above(level));
        }
        current = next;
    }
    let hex = text::bytes_to_hex(current[0].as_slice());
    assert(digests(current@)[0] == current@[0]@);
    with_algorithm(hex.as_str())
}

// ---------------------------------------------------------------------------
// Laws
// ---------------------------------------------------------------------------

/// Tampering shows: messages with the same tagged digest text have the same
/// digest.
pub proof fn law_equal_texts_mean_equal_digests(a: Seq<u8>, b: Seq<u8>)
    requires
        tagged(sha256_digest(a)) == tagged(sha256_digest(b)),
    ensures
        sha256_digest(a) == sha256_digest(b),
{
    let (x, y) = (text::hex(sha256_digest(a)), text::hex(sha256_digest(b)));
    let n = "sha256:"@.len() as int;
    assert(tagged(sha256_digest(a)).skip(n) =~= x);
    assert(tagged(sha256_digest(b)).skip(n) =~= y);
    text::law_hex_is_unambiguous(sha256_digest(a), sha256_digest(b));
}

/// A last leaf without a neighbour counts twice: repeating it changes nothing.
pub proof fn law_odd_leaf_counts_twice(leaves: Seq<Seq<u8>>)
    requires
        leaves.len() >= 3,
        leaves.len() % 2 == 1,
    ensures
        root_text(leaves.push(leaves.last())) == root_text(leaves),
{
    let (a, b) = (level_above(leaves), level_above(leaves.push(leaves.last())));
    assert forall|i: int| 0 <= i < a.len() implies #[trigger] a[i] == b[i] by {}
    assert(a =~= b);
}

/// A tree with one leaf has that leaf at its top, and a tree with two has the
/// digest of both.
pub proof fn law_small_trees(a: Seq<u8>, b: Seq<u8>)
    ensures
        root_text(seq![a]) == tagged(a),
        root_text(seq![a, b]) == tagged(sha256_digest(a + b)),
{
    reveal_with_fuel(top, 2);
    assert(level_above(seq![a, b]) =~= seq![sha256_digest(a + b)]);
}

/// Each level of a tree is made of the one below it: a node is the digest of the two
/// nodes below it, the left one first, and a last one without a neighbour stands for
/// both. The root over a level is that over the level above it.
pub proof fn law_nodes_are_digests_of_two(level: Seq<Seq<u8>>, above: Seq<Seq<u8>>)
    requires
        level.len() >= 2,
        above.len() == level.len() / 2 + level.len() % 2,
        forall|i: int|
            0 <= i && 2 * i + 1 < level.len() ==> #[trigger] above[i] == sha256_digest(
                level[2 * i] + level[2 * i + 1],
            ),
        level.len() % 2 == 1 ==> above.last() == sha256_digest(level.last() + level.last()),
    ensures
        root_text(level) == root_text(above),
{
    let found = level_above(level);
    assert(found.len() == above.len());
    assert forall|i: int| 0 <= i < above.len() implies #[trigger] found[i] == above[i] by {
        if 2 * i + 1 >= level.len() {
            assert(i == above.len() - 1 && 2 * i == level.len() - 1);
        }
    }
    assert(found =~= above);
}

/// The root over four leaves: all of them enter it, each once.
pub proof fn law_root_of_four(a: Seq<u8>, b: Seq<u8>, c: Seq<u8>, d: Seq<u8>)
    ensures
        root_text(seq![a, b, c, d]) == "sha256:"@ + text::hex(
            sha256_digest(sha256_digest(a + b) + sha256_digest(c + d)),
        ),
{
    let (left, right) = (sha256_digest(a + b), sha256_digest(c + d));
    law_nodes_are_digests_of_two(seq![a, b, c, d], seq![left, right]);
    law_nodes_are_digests_of_two(seq![left, right], seq![sha256_digest(left + right)]);
    law_small_trees(sha256_digest(left + right), Seq::empty());
}

/// A tree without leaves has the digest of the empty message at its top.
pub proof fn law_root_without_leaves()
    ensures
        root_text(Seq::empty()) == "sha256:"@ + text::hex(sha256_digest(Seq::empty())),
{
}

/// Two messages have the same digest.
pub open spec fn collision(x: Seq<u8>, y: Seq<u8>) -> bool {
    x != y && sha256_digest(x) == sha256_digest(y)
}

/// All have as many bytes as a digest.
pub open spec fn digest_sized(level: Seq<Seq<u8>>) -> bool {
    forall|i: int| 0 <= i < level.len() ==> (#[trigger] level[i]).len() == 32
}

/// Two levels with the same level above them are the same, or there is a collision.
proof fn lemma_level_decides(a: Seq<Seq<u8>>, b: Seq<Seq<u8>>)
    requires
        a.len() == b.len(),
        digest_sized(a),
        digest_sized(b),
        level_above(a) == level_above(b),
    ensures
        a == b || exists|x: Seq<u8>, y: Seq<u8>| collision(x, y),
{
    if !(exists|x: Seq<u8>, y: Seq<u8>| collision(x, y)) {
        assert forall|k: int| 0 <= k < a.len() implies #[trigger] a[k] == b[k] by {
            let i = k / 2;
            let second = if 2 * i + 1 < a.len() {
                2 * i + 1
            } else {
                2 * i
            };
            let (x, y) = (a[2 * i] + a[second], b[2 * i] + b[second]);
            assert(level_above(a)[i] == sha256_digest(x));
            assert(level_above(b)[i] == sha256_digest(y));
            assert(!collision(x, y));
            assert(a[2 * i] =~= x.take(32) && a[second] =~= x.skip(32));
            assert(b[2 * i] =~= y.take(32) && b[second] =~= y.skip(32));
        }
        assert(a =~= b);
    }
}

/// [`law_every_leaf_enters_the_root`] for what is at the top.
proof fn lemma_top_decides(a: Seq<Seq<u8>>, b: Seq<Seq<u8>>)
    requires
        a.len() == b.len() > 0,
        digest_sized(a),
        digest_sized(b),
        forall|data: Seq<u8>| (#[trigger] sha256_digest(data)).len() == 32,
        top(a) == top(b),
    ensures
        a == b || exists|x: Seq<u8>, y: Seq<u8>| collision(x, y),
    decreases a.len(),
{
    if a.len() == 1 {
        assert(a =~= b);
    } else {
        lemma_top_decides(level_above(a), level_above(b));
        if level_above(a) == level_above(b) {
            lemma_level_decides(a, b);
        }
    }
}

/// Every leaf enters the root: who exchanges a leaf and keeps the root has found two
/// messages with the same digest.
pub proof fn law_every_leaf_enters_the_root(a: Seq<Seq<u8>>, b: Seq<Seq<u8>>)
    requires
        a.len() == b.len(),
        digest_sized(a),
        digest_sized(b),
        forall|data: Seq<u8>| (#[trigger] sha256_digest(data)).len() == 32,
        root_text(a) == root_text(b),
        a != b,
    ensures
        exists|x: Seq<u8>, y: Seq<u8>| collision(x, y),
{
    if a.len() == 0 {
        assert(a =~= b);
    } else {
        let n = "sha256:"@.len() as int;
        assert(tagged(top(a)).skip(n) =~= text::hex(top(a)));
        assert(tagged(top(b)).skip(n) =~= text::hex(top(b)));
        text::law_hex_is_unambiguous(top(a), top(b));
        lemma_top_decides(a, b);
    }
}

/// The digest of a message is written with the name of the algorithm before it, or
/// without.
pub proof fn law_texts_of_digests(data: Seq<u8>, digest: Seq<u8>)
    ensures
        digest_text(data) == text::hex(sha256_digest(data)),
        tagged(digest) == "sha256:"@ + text::hex(digest),
{
}

/// All digests of a list are looked at, in order and with all their bytes.
pub proof fn law_digests_are_taken_as_they_are(list: Seq<Vec<u8>>, i: int)
    requires
        0 <= i < list.len(),
    ensures
        digests(list).len() == list.len(),
        digests(list)[i] == list[i]@,
        digests(Seq::empty()).len() == 0,
{
}

} // verus!
