use bittorrent::bencode::object::Object;
use bittorrent::file_writer::{plan_piece_writes, FileSpan, FileWrite};
use bittorrent::peer::PeerAddr;
use bittorrent::progress_displayer::{ProgressDisplayer, ProgressEvent};
use bittorrent::stats_manager::StatsManager;
use bittorrent::tracker::{AnnounceInfo, ResponseError, ResponseField, Tracker};
use bittorrent::tracker_manager::{collect_trackers, PeerRegistry};

fn b(s: &str) -> Vec<u8> {
    s.as_bytes().to_vec()
}

#[test]
fn new_tracker() {
    let mut t = Tracker::new("http://t.example/announce".to_string());
    assert_eq!(t.url(), "http://t.example/announce");
    assert_eq!(t.interval(), 0);
    assert!(t.peers().is_empty());
    t.set_interval(1800);
    assert_eq!(t.interval(), 1800);
}

#[test]
fn announce_url() {
    let t = Tracker::new("http://t.example/announce".to_string());
    let hash = [0x00, b'a', b'~', b' ', 0xff, b'Z', b'-', b'.', b'_', b'/'];
    let info = AnnounceInfo::new(&hash, "-RS0001-abcdefghijkl", 6881, 10, 20, 0);
    assert_eq!(
        t.announce_url(&info),
        "http://t.example/announce?info_hash=%00a~%20%FFZ-._%2F&peer_id=-RS0001-abcdefghijkl\
         &port=6881&uploaded=0&downloaded=10&left=20&compact=1"
    );
}

#[test]
fn reads_a_tracker_answer() {
    let mut t = Tracker::new("http://t.example/".to_string());
    let answer = vec![
        (b("complete"), Object::Number(5)),
        (b("incomplete"), Object::Number(2)),
        (b("interval"), Object::Number(900)),
        (b("peers"), Object::ByteArray(vec![1, 2, 3, 4, 0, 80])),
    ];
    let r = t.apply_response(&answer).unwrap();
    assert_eq!((r.complete, r.incomplete, r.interval), (5, 2, 900));
    assert_eq!(r.peers, vec![1, 2, 3, 4, 0, 80]);
    assert_eq!(t.interval(), 900);
}

#[test]
fn tracker_answer_errors() {
    let mut t = Tracker::new("http://t.example/".to_string());
    let answer = vec![(b("complete"), Object::Number(5))];
    assert_eq!(
        t.apply_response(&answer).err(),
        Some(ResponseError::MissingKey(ResponseField::Incomplete))
    );
    let answer = vec![
        (b("complete"), Object::Number(5)),
        (b("incomplete"), Object::Number(2)),
        (b("interval"), Object::Number(60)),
        (b("peers"), Object::Number(0)),
    ];
    assert_eq!(
        t.apply_response(&answer).err(),
        Some(ResponseError::WrongType(ResponseField::Peers))
    );
    assert_eq!(t.interval(), 60);
    let answer = vec![
        (b("complete"), Object::ByteArray(b("x"))),
    ];
    assert_eq!(
        t.apply_response(&answer).err(),
        Some(ResponseError::WrongType(ResponseField::Complete))
    );
}

#[test]
fn collects_usable_trackers() {
    let tiers = vec![
        vec!["http://a.example/".to_string(), "bad url".to_string()],
        vec!["udp://b.example:1".to_string()],
    ];
    let (trackers, rejected) = collect_trackers(&"http://main.example/".to_string(), &tiers);
    let urls: Vec<&str> = trackers.iter().map(|t| t.url()).collect();
    assert_eq!(urls, vec!["http://main.example/", "http://a.example/", "udp://b.example:1"]);
    assert_eq!(rejected, vec!["bad url".to_string()]);
}

#[test]
fn registry_forwards_new_peers_once() {
    let mut reg = PeerRegistry::new();
    let a = PeerAddr::V4 { ip4: 1, port: 2 };
    let c = PeerAddr::V6 { ip6: 1, port: 2, flowinfo: 0, scope_id: 0 };
    assert_eq!(reg.register(vec![a, a, c]), vec![a, c]);
    assert_eq!(reg.register(vec![c, a]), vec![]);
    assert!(reg.contains(a) && reg.contains(c));
}

#[test]
fn stats_and_progress() {
    let mut s = StatsManager::new(100);
    s.update_downloaded(30);
    let st = s.fetch();
    assert_eq!((st.downloaded, st.left, st.uploaded), (30, 70, 0));

    let mut p = ProgressDisplayer::new(40, 100);
    assert_eq!(p.on_event(ProgressEvent::PieceCompleted), 40);
    assert_eq!(p.on_event(ProgressEvent::PieceCompleted), 80);
    assert_eq!(p.on_event(ProgressEvent::PieceCompleted), 100);
    assert_eq!(p.on_event(ProgressEvent::PieceCompleted), 100);
}

#[test]
fn piece_writes_span_files() {
    let files = [
        FileSpan { offset: 0, length: 10 },
        FileSpan { offset: 10, length: 0 },
        FileSpan { offset: 10, length: 25 },
        FileSpan { offset: 35, length: 5 },
    ];
    let w = plan_piece_writes(&files, 1, 8, 8).unwrap();
    assert_eq!(
        w,
        vec![
            FileWrite { file: 0, file_offset: 8, data_start: 0, len: 2 },
            FileWrite { file: 2, file_offset: 0, data_start: 2, len: 6 },
        ]
    );
    let last = plan_piece_writes(&files, 4, 8, 8).unwrap();
    assert_eq!(
        last,
        vec![
            FileWrite { file: 2, file_offset: 22, data_start: 0, len: 3 },
            FileWrite { file: 3, file_offset: 0, data_start: 3, len: 5 },
        ]
    );
    let tail = plan_piece_writes(&files, 9, 4, 8).unwrap();
    assert_eq!(tail, vec![FileWrite { file: 3, file_offset: 1, data_start: 0, len: 4 }]);
    assert!(plan_piece_writes(&files, usize::MAX, u64::MAX, 1).is_none());
    let gap = [FileSpan { offset: 5, length: 5 }];
    assert!(plan_piece_writes(&gap, 0, 8, 3).is_none());
    assert_eq!(plan_piece_writes(&files, 9, 8, 8).unwrap(), vec![]);
}

#[test]
fn registry_over_several_announces() {
    let mut reg = PeerRegistry::new();
    let a = PeerAddr::V4 { ip4: 10, port: 6881 };
    let b = PeerAddr::V4 { ip4: 11, port: 6881 };
    let c = PeerAddr::V4 { ip4: 10, port: 6882 };
    let mut sent = Vec::new();
    sent.extend(reg.register(vec![a, b]));
    sent.extend(reg.register(vec![b, c, a]));
    sent.extend(reg.register(vec![c, c]));
    assert_eq!(sent, vec![a, b, c]);
    assert!(reg.contains(a) && reg.contains(b) && reg.contains(c));
}

#[test]
fn stats_over_a_run() {
    let mut s = StatsManager::new(1000);
    for bytes in [100usize, 250, 0, 650] {
        s.update_downloaded(bytes);
    }
    let st = s.fetch();
    assert_eq!((st.downloaded, st.left, st.uploaded), (1000, 0, 0));
}

#[test]
fn progress_after_k_pieces() {
    let mut p = ProgressDisplayer::new(16384, 40000);
    let mut last = 0;
    for k in 1..=5u64 {
        let pos = p.on_event(ProgressEvent::PieceCompleted);
        assert_eq!(pos, std::cmp::min(k * 16384, 40000));
        assert!(pos >= last);
        last = pos;
    }
}

#[test]
fn answer_must_be_a_dictionary() {
    let mut t = Tracker::new("http://t.example/".to_string());
    assert!(t.apply_answer(&Object::ByteArray(b("failure"))).is_none());
    assert_eq!(t.interval(), 0);
    let answer = Object::Dictionary(vec![
        (b("complete"), Object::Number(1)),
        (b("incomplete"), Object::Number(0)),
        (b("interval"), Object::Number(30)),
        (b("peers"), Object::ByteArray(vec![])),
    ]);
    let r = t.apply_answer(&answer).unwrap().unwrap();
    assert_eq!((r.complete, r.incomplete, r.interval), (1, 0, 30));
    assert!(r.peers.is_empty());
    assert_eq!(t.interval(), 30);
}
