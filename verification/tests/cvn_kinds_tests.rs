use unipn::cvn::kinds::{ControlSub, CvnTransition, PlaceKind, ResourceType, TransitionKind};
use unipn::cvn::roles::{PlaceRole, TransitionRole};

#[test]
fn resource_capacities() {
    assert_eq!(PlaceKind::Resource(ResourceType::Mutex).capacity(), Some(1));
    assert_eq!(PlaceKind::Resource(ResourceType::RwLock { max_readers: 4 }).capacity(), Some(4));
    assert_eq!(PlaceKind::Resource(ResourceType::Semaphore { count: 3 }).capacity(), Some(3));
    assert_eq!(PlaceKind::Resource(ResourceType::Channel).capacity(), None);
    assert_eq!(PlaceKind::Resource(ResourceType::Condvar).capacity(), None);
    assert_eq!(PlaceKind::Control(ControlSub::BasicBlock).capacity(), None);
}

#[test]
fn cvn_place_roles() {
    assert!(PlaceKind::Resource(ResourceType::Mutex).is_resource());
    assert!(!PlaceKind::Control(ControlSub::WaitPoint).is_resource());
    assert!(PlaceKind::Control(ControlSub::FunctionEnd).is_terminal());
    assert!(!PlaceKind::Control(ControlSub::CallWait).is_terminal());
    assert!(!PlaceKind::Resource(ResourceType::Channel).is_terminal());
}

#[test]
fn cvn_transition_roles() {
    let t = |k: TransitionKind| CvnTransition::new(k);
    assert!(t(TransitionKind::Recv).is_acquire());
    assert!(t(TransitionKind::CondvarReacquire).is_acquire());
    assert!(!t(TransitionKind::Unlock).is_acquire());
    assert!(t(TransitionKind::CondvarWaitEnter).is_release());
    assert!(t(TransitionKind::Send).is_release());
    assert!(!t(TransitionKind::Lock).is_release());
    assert!(t(TransitionKind::Spawn).is_thread_spawn());
    assert!(t(TransitionKind::Join).is_thread_join());
    assert!(!t(TransitionKind::Spawn).is_thread_join());
    assert!(t(TransitionKind::CasFailure).is_atomic());
    assert!(!t(TransitionKind::VarWrite).is_atomic());
    assert!(t(TransitionKind::UnsafeWrite).is_unsafe_access());
    assert!(!t(TransitionKind::Other("x".to_string())).is_unsafe_access());
}

#[test]
fn new_transition_has_no_attribution() {
    let t = CvnTransition::new(TransitionKind::Switch { label: "case 1".to_string() });
    assert_eq!(t.kind, TransitionKind::Switch { label: "case 1".to_string() });
    assert_eq!(t.scope, None);
    assert!(t.anchors.is_empty());
    assert_eq!(t.family, None);
}
