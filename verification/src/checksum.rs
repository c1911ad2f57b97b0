//! The checksum by which a package is recognised as unchanged.
//!
//! It covers the sources of the package and its manifest.

use vstd::prelude::*;
use vstd::string::*;
use vstd::utf8::*;

use crate::path::{
    components, current_component, has_parent, is_parent_text, join_text, law_join_components,
    lemma_components_of_empty, lemma_components_of_name, lemma_names_of_segment, FilePath,
};

verus! {

/// What `blake3::hash` makes of a byte string.
pub uninterp spec fn blake3_hash(bytes: Seq<u8>) -> Seq<u8>;

/// `blake3::hash`: a hash of 32 bytes, which depends on `bytes` alone.
#[verifier::external_body]
fn hash(bytes: &[u8]) -> (r: Vec<u8>)
    ensures
        r@ == blake3_hash(bytes@),
        r@.len() == 32,
{
    merkle_hash::blake3::hash(bytes).as_bytes().to_vec()
}

/// A byte string in hexadecimal: two digits a byte, the higher one first, in lower case.
pub open spec fn hex_text(bytes: Seq<u8>) -> Seq<char> {
    Seq::new(
        2 * bytes.len(),
        |i: int|
            "0123456789abcdef"@[if i % 2 == 0 {
                bytes[i / 2] as int / 16
            } else {
                bytes[i / 2] as int % 16
            }],
    )
}

/// `hex::encode`: writes `bytes` in hexadecimal.
#[verifier::external_body]
fn encode_hex(bytes: &[u8]) -> (r: String)
    ensures
        r@ == hex_text(bytes@),
{
    hex::encode(bytes)
}

/// What a checksum covers.
pub struct Sources {
    /// The hash of the tree of source files.
    pub tree_hash: Vec<u8>,
    /// The bytes of the manifest.
    pub manifest: Vec<u8>,
}

/// The checksum of a package; one without sources has the empty checksum.
pub open spec fn checksum_text(sources: Option<(Seq<u8>, Seq<u8>)>) -> Seq<char> {
    match sources {
        Some((tree_hash, manifest)) => hex_text(blake3_hash(tree_hash + blake3_hash(manifest))),
        None => Seq::empty(),
    }
}

/// The checksum of a package, from the hash of its tree of sources and its manifest. A
/// package without sources has the empty checksum; any other has one of 64 digits.
pub fn checksum(sources: Option<Sources>) -> (r: String)
    ensures
        r@ == checksum_text(
            match sources {
                Some(s) => Some((s.tree_hash@, s.manifest@)),
                None => None,
            },
        ),
        r@.len() == if sources is Some {
            64nat
        } else {
            0nat
        },
{
    match sources {
        Some(s) => {
            let mut both: Vec<u8> = s.tree_hash;
            let mut manifest_hash: Vec<u8> = hash(s.manifest.as_slice());
            both.append(&mut manifest_hash);
            encode_hex(hash(both.as_slice()).as_slice())
        },
        None => String::new(),
    }
}

/// The directory of sources that belongs to a manifest: `src`, beside it.
pub fn source_dir(cargo_toml_path: &FilePath) -> (r: FilePath)
    requires
        has_parent(cargo_toml_path@),
    ensures
        components(r@) == components(cargo_toml_path@).drop_last().push(encode_utf8("src"@)),
        exists|dir: Seq<u8>| #[trigger]
            is_parent_text(dir, cargo_toml_path@) && r@ == join_text(dir, encode_utf8("src"@)),
{
    let cargo_dir: FilePath = cargo_toml_path.parent().unwrap();
    let src: FilePath = FilePath::new("src".as_bytes_vec());
    proof {
        reveal_strlit("src");
        assert(is_ascii_chars("src"@));
        is_ascii_chars_encode_utf8("src"@);
        assert(src@.len() == 3 && current_component().len() == 1);
        lemma_components_of_name(src@);
        lemma_names_of_segment(src@);
        law_join_components(cargo_dir@, src@);
        if cargo_dir@.len() == 0 {
            lemma_components_of_empty(cargo_dir@);
        }
        assert(components(join_text(cargo_dir@, src@)) =~= components(
            cargo_dir@,
        ).push(src@));
    }
    cargo_dir.join(&src)
}

proof fn lemma_hex_digit(i: int, j: int)
    requires
        0 <= i < 16,
        0 <= j < 16,
        "0123456789abcdef"@[i] == "0123456789abcdef"@[j],
    ensures
        i == j,
{
    reveal_strlit("0123456789abcdef");
}

/// Different byte strings are written differently.
proof fn lemma_hex_text(a: Seq<u8>, b: Seq<u8>)
    requires
        hex_text(a) == hex_text(b),
    ensures
        a == b,
{
    assert(hex_text(a).len() == 2 * a.len() && hex_text(b).len() == 2 * b.len());
    assert forall|k: int| 0 <= k < a.len() implies a[k] == b[k] by {
        let digits = "0123456789abcdef"@;
        assert((2 * k) % 2 == 0 && (2 * k) / 2 == k);
        assert((2 * k + 1) % 2 == 1 && (2 * k + 1) / 2 == k);
        assert(hex_text(a)[2 * k] == digits[a[k] as int / 16]);
        assert(hex_text(b)[2 * k] == digits[b[k] as int / 16]);
        assert(hex_text(a)[2 * k + 1] == digits[a[k] as int % 16]);
        assert(hex_text(b)[2 * k + 1] == digits[b[k] as int % 16]);
        lemma_hex_digit(a[k] as int / 16, b[k] as int / 16);
        lemma_hex_digit(a[k] as int % 16, b[k] as int % 16);
    }
    assert(a =~= b);
}

/// Whether two different byte strings have the same hash.
pub open spec fn collide(a: Seq<u8>, b: Seq<u8>) -> bool {
    a != b && blake3_hash(a) == blake3_hash(b)
}

/// Two packages with sources have the same checksum exactly if the hashes of their trees and
/// their manifests are the same, collisions of hashes aside. That hashes are of one length
/// is what parts a tree from a manifest; it is enough to know it of one of the two pairs.
pub proof fn law_checksum_tells_packages_apart(
    tree_a: Seq<u8>,
    manifest_a: Seq<u8>,
    tree_b: Seq<u8>,
    manifest_b: Seq<u8>,
)
    ensures
        tree_a == tree_b && manifest_a == manifest_b ==> checksum_text(Some((tree_a, manifest_a)))
            == checksum_text(Some((tree_b, manifest_b))),
        (tree_a.len() == tree_b.len() || blake3_hash(manifest_a).len() == blake3_hash(
            manifest_b,
        ).len()) && checksum_text(Some((tree_a, manifest_a))) == checksum_text(
            Some((tree_b, manifest_b)),
        ) ==> {
            ||| tree_a == tree_b && manifest_a == manifest_b
            ||| collide(manifest_a, manifest_b)
            ||| collide(tree_a + blake3_hash(manifest_a), tree_b + blake3_hash(manifest_b))
        },
{
    let hash_a = blake3_hash(manifest_a);
    let hash_b = blake3_hash(manifest_b);
    if checksum_text(Some((tree_a, manifest_a))) == checksum_text(Some((tree_b, manifest_b))) {
        lemma_hex_text(blake3_hash(tree_a + hash_a), blake3_hash(tree_b + hash_b));
        if tree_a + hash_a == tree_b + hash_b && (tree_a.len() == tree_b.len() || hash_a.len()
            == hash_b.len()) {
            assert((tree_a + hash_a).len() == (tree_b + hash_b).len());
            assert(tree_a =~= (tree_a + hash_a).take(tree_a.len() as int));
            assert(tree_b =~= (tree_b + hash_b).take(tree_b.len() as int));
            assert(hash_a =~= (tree_a + hash_a).skip(tree_a.len() as int));
            assert(hash_b =~= (tree_b + hash_b).skip(tree_b.len() as int));
        }
    }
}

/// The digits of a byte string: two for each byte, the first counting sixteens and the second
/// ones, `0` to `9` and `a` to `f`.
pub proof fn law_hex_digits(bytes: Seq<u8>)
    ensures
        hex_text(bytes).len() == 2 * bytes.len(),
        forall|k: int|
            #![trigger bytes[k]]
            0 <= k < bytes.len() ==> 16 * digit_value(hex_text(bytes)[2 * k]) + digit_value(
                hex_text(bytes)[2 * k + 1],
            ) == bytes[k],
        forall|i: int|
            0 <= i < hex_text(bytes).len() ==> 0 <= digit_value(#[trigger] hex_text(bytes)[i])
                < 16,
{
    reveal_strlit("0123456789abcdef");
    let digits = "0123456789abcdef"@;
    assert forall|d: int| 0 <= d < 16 implies digit_value(#[trigger] digits[d]) == d by {}
    assert forall|k: int|
        #![trigger bytes[k]]
        0 <= k < bytes.len() implies 16 * digit_value(hex_text(bytes)[2 * k]) + digit_value(
        hex_text(bytes)[2 * k + 1],
    ) == bytes[k] by {
        assert((2 * k) % 2 == 0 && (2 * k) / 2 == k);
        assert((2 * k + 1) % 2 == 1 && (2 * k + 1) / 2 == k);
        assert(hex_text(bytes)[2 * k] == digits[bytes[k] as int / 16]);
        assert(hex_text(bytes)[2 * k + 1] == digits[bytes[k] as int % 16]);
    }
    assert forall|i: int| 0 <= i < hex_text(bytes).len() implies 0 <= digit_value(
        #[trigger] hex_text(bytes)[i],
    ) < 16 by {
        let b = bytes[i / 2] as int;
        assert(hex_text(bytes)[i] == digits[if i % 2 == 0 {
            b / 16
        } else {
            b % 16
        }]);
    }
}

/// The value of a hexadecimal digit in lower case, and -1 for any other character.
pub open spec fn digit_value(c: char) -> int {
    if '0' <= c <= '9' {
        c as int - '0' as int
    } else if 'a' <= c <= 'f' {
        c as int - 'a' as int + 10
    } else {
        -1
    }
}

/// A package without sources has the empty checksum. That of any other writes a hash, taken
/// over the hash of its tree and, behind it, that of its manifest.
pub proof fn law_what_a_checksum_covers(tree: Seq<u8>, manifest: Seq<u8>, covered: Seq<u8>)
    ensures
        checksum_text(None).len() == 0,
        covered.take(tree.len() as int) == tree && covered.skip(tree.len() as int) == blake3_hash(
            manifest,
        ) && covered.len() >= tree.len() ==> checksum_text(Some((tree, manifest))) == hex_text(
            blake3_hash(covered),
        ),
{
    if covered.take(tree.len() as int) == tree && covered.skip(tree.len() as int) == blake3_hash(
        manifest,
    ) && covered.len() >= tree.len() {
        assert(covered =~= covered.take(tree.len() as int) + covered.skip(tree.len() as int));
    }
}

} // verus!
