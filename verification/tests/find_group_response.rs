use rand::Rng;
use routing::crypto::{PublicEncryptKey, PublicSignKey};
use routing::find_group_response::FindGroupResponse;
use routing::public_id::PublicId;
use routing::types::{GROUP_SIZE, QUORUM_SIZE};

fn random_public_id() -> PublicId {
    let (sign_pk, _) = sodiumoxide::crypto::sign::gen_keypair();
    let (box_pk, _) = sodiumoxide::crypto::box_::gen_keypair();
    PublicId::new(PublicEncryptKey(box_pk.0), PublicSignKey(sign_pk.0))
}

#[test]
fn merge() {
    let ids: Vec<PublicId> = (0..GROUP_SIZE + 20).map(|_| random_public_id()).collect();
    assert!(ids.len() >= GROUP_SIZE);

    let group_size = GROUP_SIZE;
    let quorum_size = QUORUM_SIZE;

    // get random QUORUM_SIZE members
    let mut rng = rand::thread_rng();
    let groups: Vec<PublicId> = rand::seq::sample_slice(&mut rng, &ids, quorum_size);

    let mut responses = Vec::<FindGroupResponse>::with_capacity(quorum_size);

    for _ in 0..quorum_size {
        let mut response = FindGroupResponse { group: Vec::new() };
        // Take the first QUORUM_SIZE as common...
        for i in 0..quorum_size {
            response.group.push(groups[i].clone());
        }
        // ...and the remainder arbitrary
        for _ in quorum_size..group_size {
            response.group.push(random_public_id());
        }

        rng.shuffle(&mut response.group);
        responses.push(response);
    }

    let merged = FindGroupResponse::merge(&responses);
    assert!(merged.is_some());
    let merged_response = merged.unwrap();
    for i in 0..quorum_size {
        assert!(groups.iter().find(|a| **a == merged_response.group[i]).is_some());
    }
}

#[test]
fn merge_without_quorum_is_none() {
    let responses: Vec<FindGroupResponse> = (0..QUORUM_SIZE - 1)
        .map(|_| FindGroupResponse { group: vec![random_public_id(), random_public_id()] })
        .collect();
    assert!(FindGroupResponse::merge(&responses).is_none());
    assert!(FindGroupResponse::merge(&vec![]).is_none());
}

#[test]
fn merge_takes_most_voted_first_and_at_most_a_group() {
    // Ten members each named by a quorum, one of them by every report and one twice as often.
    let members: Vec<PublicId> = (0..10).map(|_| random_public_id()).collect();
    let mut responses = Vec::new();
    for r in 0..7 {
        let mut group = Vec::new();
        for (i, m) in members.iter().enumerate() {
            if i == 0 || r < QUORUM_SIZE {
                group.push(*m);
            }
        }
        if r < QUORUM_SIZE {
            group.push(members[1]);
        }
        responses.push(FindGroupResponse { group });
    }
    let merged = FindGroupResponse::merge(&responses).unwrap().group;
    assert_eq!(merged.len(), GROUP_SIZE);
    // members[1] has 2 * QUORUM_SIZE votes, members[0] has 7, the others QUORUM_SIZE.
    assert_eq!(merged[0], members[1]);
    assert_eq!(merged[1], members[0]);
}
