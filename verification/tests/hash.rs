use fast_nix_gc::hash::{nar_hash_nix32, NarHasher, NarNode};

// Reference values from `nix hash path --type sha256 --base32`.
#[test]
fn matches_nix_hash_path_regular() {
    let node = NarNode::Regular {
        executable: false,
        contents: b"hello world\n".to_vec(),
    };
    assert_eq!(
        nar_hash_nix32(&node),
        "00zns3gj9hwz2a4b0i07y7nmxybq59lh24bl3xsxblcl6333mjil"
    );
}

#[test]
fn matches_nix_hash_path_executable() {
    let node = NarNode::Regular {
        executable: true,
        contents: b"hello world\n".to_vec(),
    };
    assert_eq!(
        nar_hash_nix32(&node),
        "08dz2j85pn9szqrsnm3r7snlrhwr6wfvs6rl384j8kksb5qv818b"
    );
}

#[test]
fn matches_nix_hash_path_symlink() {
    let node = NarNode::Symlink {
        target: b"../foo".to_vec(),
    };
    assert_eq!(
        nar_hash_nix32(&node),
        "1ix20zzkrny4jdydlpfpvi1c1lnrrpm3av3fdjczxq1xah7kawn4"
    );
}

#[test]
fn contents_can_come_in_pieces() {
    let mut h = NarHasher::start(false, 12);
    h.update(b"hello ");
    assert_eq!(h.remaining(), 6);
    h.update(b"");
    h.update(b"world\n");
    assert_eq!(h.remaining(), 0);
    assert_eq!(
        h.finish(),
        "00zns3gj9hwz2a4b0i07y7nmxybq59lh24bl3xsxblcl6333mjil"
    );
}

#[test]
fn different_nodes_have_different_hashes() {
    let file = |executable: bool, contents: &[u8]| {
        nar_hash_nix32(&NarNode::Regular {
            executable,
            contents: contents.to_vec(),
        })
    };
    let hashes = [
        file(false, b""),
        file(true, b""),
        file(false, b"\0"),
        file(false, b"\0\0\0\0\0\0\0\0"),
        file(false, b"../foo"),
        nar_hash_nix32(&NarNode::Symlink {
            target: b"../foo".to_vec(),
        }),
        nar_hash_nix32(&NarNode::Symlink { target: Vec::new() }),
    ];
    for (i, a) in hashes.iter().enumerate() {
        assert_eq!(a.len(), 52);
        for b in &hashes[i + 1..] {
            assert_ne!(a, b);
        }
    }
}
