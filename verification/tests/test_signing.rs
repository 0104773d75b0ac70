use vcs_core::backend::{Commit, CommitData, Store};
use vcs_core::op_store::OpStore;
use vcs_core::signing::{
    resolve_sign_behavior, should_sign, signature_to_write, SigStatus, SignBehavior, SignSettings,
    Signer, Verification,
};
use vcs_core::transaction::Repo;

struct FixedSigner;

impl Signer for FixedSigner {
    fn sign(&self, data: &CommitData, key: &Option<String>) -> Option<Vec<u8>> {
        let mut bytes = key.clone().unwrap_or_default().into_bytes();
        bytes.extend_from_slice(data.description.as_bytes());
        Some(bytes)
    }

    fn verify(&self, commit: &Commit) -> Option<Verification> {
        commit.data.secure_sig.as_ref().map(|sig| Verification {
            status: if sig.ends_with(commit.data.description.as_bytes()) {
                SigStatus::Good
            } else {
                SigStatus::Bad
            },
            key: None,
            display: None,
        })
    }
}

fn settings(behavior: SignBehavior, key: Option<&str>) -> SignSettings {
    SignSettings { behavior, key: key.map(|k| k.to_string()) }
}

#[test]
fn sign_behavior_asked_for_overrides_the_default() {
    let own = settings(SignBehavior::Own, None);
    assert_eq!(resolve_sign_behavior(None, &own), SignBehavior::Own);
    assert_eq!(resolve_sign_behavior(Some(SignBehavior::Drop), &own), SignBehavior::Drop);
    assert_eq!(resolve_sign_behavior(Some(SignBehavior::Force), &own), SignBehavior::Force);
}

#[test]
fn signing_depends_on_behavior_and_key() {
    let with_key = settings(SignBehavior::Own, Some("k"));
    let without_key = settings(SignBehavior::Own, None);
    assert!(should_sign(SignBehavior::Own, &with_key));
    assert!(!should_sign(SignBehavior::Own, &without_key));
    assert!(should_sign(SignBehavior::Force, &without_key));
    assert!(!should_sign(SignBehavior::Drop, &with_key));
    assert_eq!(signature_to_write(SignBehavior::Drop, &with_key, Some(vec![1])), None);
    assert_eq!(signature_to_write(SignBehavior::Own, &with_key, Some(vec![1])), Some(vec![1]));
    assert_eq!(signature_to_write(SignBehavior::Own, &without_key, Some(vec![1])), None);
    assert_eq!(signature_to_write(SignBehavior::Force, &without_key, None), None);
}

#[test]
fn commits_are_signed_where_the_behavior_says_so() {
    let mut store = Store::new();
    let op_store = OpStore::new();
    let repo = Repo::init(&store, &op_store).unwrap();
    let mut tx = repo.start_transaction();
    let mut_repo = tx.repo_mut();
    let root = store.root_commit_id();
    let tree = store.empty_tree_id();
    let with_key = settings(SignBehavior::Own, Some("key:"));
    let without_key = settings(SignBehavior::Own, None);

    let signed = mut_repo
        .new_commit(vec![root], tree)
        .set_description("one")
        .write_signed(mut_repo, &mut store, &with_key, &FixedSigner)
        .unwrap();
    assert_eq!(signed.data.secure_sig, Some(b"key:one".to_vec()));
    assert_eq!(FixedSigner.verify(&signed).unwrap().status, SigStatus::Good);

    let unsigned = mut_repo
        .new_commit(vec![root], tree)
        .set_description("two")
        .write_signed(mut_repo, &mut store, &without_key, &FixedSigner)
        .unwrap();
    assert_eq!(unsigned.data.secure_sig, None);
    assert!(FixedSigner.verify(&unsigned).is_none());

    let forced = mut_repo
        .new_commit(vec![root], tree)
        .set_description("three")
        .set_sign_behavior(SignBehavior::Force)
        .write_signed(mut_repo, &mut store, &without_key, &FixedSigner)
        .unwrap();
    assert_eq!(forced.data.secure_sig, Some(b"three".to_vec()));

    // Rewriting with the signature dropped strips it.
    let builder = mut_repo.rewrite_commit(&signed).set_sign_behavior(SignBehavior::Drop);
    assert_eq!(builder.sign_behavior(), Some(SignBehavior::Drop));
    let dropped = builder.write_signed(mut_repo, &mut store, &with_key, &FixedSigner).unwrap();
    assert_eq!(dropped.data.secure_sig, None);
    assert_eq!(dropped.change_id(), signed.change_id());
    assert_eq!(dropped.predecessor_ids(), &vec![signed.id()]);
    assert_eq!(store.get_commit(dropped.id()).unwrap().data.secure_sig, None);
    assert_eq!(
        store.get_commit(signed.id()).unwrap().data.secure_sig,
        Some(b"key:one".to_vec())
    );
}
