use domain_runtime::domain::Index;
use domain_runtime::packet::{Error, PacketSender, Route};

#[test]
fn remote_senders_route_by_kind() {
    let d = Index::from(3);
    assert_eq!(PacketSender::make_remote(d).route(false), Route::Remote(d));
    assert_eq!(PacketSender::make_remote_input(d).route(false), Route::RemoteInput(d));
    assert_eq!(PacketSender::make_remote_unbounded(d).route(false), Route::RemoteUnbounded(d));
}

#[test]
fn unbounded_request_gets_unbounded_copy() {
    let d = Index(2);
    assert_eq!(
        PacketSender::make_remote_input(d).route(true),
        Route::ReplyWith(PacketSender::make_remote_unbounded(d))
    );
}

#[test]
fn local_senders_use_their_channel() {
    assert_eq!(PacketSender::Local.route(true), Route::Local);
    assert_eq!(PacketSender::LocalUnbounded.route(false), Route::LocalUnbounded);
    assert!(PacketSender::Local.is_local());
    assert!(PacketSender::LocalUnbounded.is_local_unbounded());
    assert!(PacketSender::make_remote(Index(1)).is_remote());
    assert_eq!(Error::Unknown, Error::Unknown);
    assert_eq!(Index(4).into_usize(), 4);
}
