use infra::documents::{DocMeta, MailBox, Version};
use infra::ids::{Entity, Id};
use infra::persistence::{begin_save, finish_save, ConcurrencyError, WritePlan};

#[derive(Debug, Default, Hash, PartialEq, Eq)]
struct Message;

#[derive(Debug)]
struct Doc;

impl Entity for Doc {
    fn prefix() -> &'static str {
        "doc"
    }
}

#[test]
fn document_messaging_scratch_pad() {
    struct Source {
        mbox: MailBox<Message>,
    }
    struct Dest {
        items: u64,
    }
    impl Source {
        fn provoke(&mut self) {
            self.mbox.send(Message);
        }
    }
    impl Dest {
        fn receive(&mut self, _: Message) {
            self.items += 1
        }
    }
    let mut src = Source {
        mbox: MailBox::default(),
    };
    let mut dst = Dest { items: 0 };

    src.provoke();

    for msg in src.mbox.outgoing.drain() {
        println!("Message  {:?}", msg);
        dst.receive(msg);
    }

    assert_eq!(dst.items, 1);
}

#[test]
fn sending_twice_keeps_one_message() {
    let mut mbox: MailBox<u32> = MailBox::empty();
    mbox.send(7);
    mbox.send(7);
    assert_eq!(mbox.outgoing.len(), 1);
    mbox.send(8);
    assert_eq!(mbox.outgoing.len(), 2);
}

#[test]
fn new_metadata_is_unsaved() {
    let id = Id::<Doc>::hashed("a");
    let meta = DocMeta::new_with_id(id);
    assert_eq!(meta.version, Version(0));
    assert_eq!(meta.id, id);
    assert_eq!(Version::default(), Version(0));
}

#[test]
fn increment_counts_one_save() {
    let mut meta = DocMeta::new_with_id(Id::<Doc>::hashed("a"));
    meta.increment_version();
    meta.increment_version();
    assert_eq!(meta.version, Version(2));
}

#[test]
fn first_save_inserts_and_bumps_version() {
    let mut meta = DocMeta::new_with_id(Id::<Doc>::hashed("a"));
    assert_eq!(begin_save(&mut meta), WritePlan::Insert);
    assert_eq!(meta.version, Version(1));
}

#[test]
fn later_save_updates_on_previous_version() {
    let mut meta = DocMeta::new_with_id(Id::<Doc>::hashed("a"));
    meta.version = Version(4);
    assert_eq!(begin_save(&mut meta), WritePlan::UpdateIfVersion(4));
    assert_eq!(meta.version, Version(5));
}

#[test]
fn a_write_that_touched_no_row_is_a_conflict() {
    assert_eq!(finish_save(0), Err(ConcurrencyError));
    assert_eq!(finish_save(1), Ok(()));
}
