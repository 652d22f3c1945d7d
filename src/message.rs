//! Wire messages and outbound frames, with their mathematical views.
use vstd::prelude::*;
use vstd::string::StringExecFns;

verus! {

/// A live connection as listed in a roster.
#[derive(Debug, PartialEq, Eq)]
pub struct User {
    pub id: u64,
    pub name: String,
}

/// The signaling messages exchanged with peers.
#[derive(Debug, PartialEq, Eq)]
pub enum Message {
    Welcome { user_id: u64 },
    UserList { users: Vec<User> },
    PeerStateChange { from_id: u64, to_id: u64, state: String },
    ConnectionRequest { to_id: u64 },
    ConnectionResponse { from_id: u64 },
    RTCOffer { to_id: u64, offer: String },
    RTCAnswer { to_id: u64, answer: String },
    RTCCandidate { to_id: u64, candidate: String },
}

/// One item of a connection's outbound queue.
#[derive(Debug, PartialEq, Eq)]
pub enum Frame {
    /// A message the server composed itself.
    Message(Message),
    /// A text frame relayed verbatim from another peer.
    Raw(String),
    /// A heartbeat ping.
    Ping,
    /// A close frame.
    Close,
}

pub struct UserView {
    pub id: u64,
    pub name: Seq<char>,
}

pub enum MessageView {
    Welcome { user_id: u64 },
    UserList { users: Seq<UserView> },
    PeerStateChange { from_id: u64, to_id: u64, state: Seq<char> },
    ConnectionRequest { to_id: u64 },
    ConnectionResponse { from_id: u64 },
    RTCOffer { to_id: u64, offer: Seq<char> },
    RTCAnswer { to_id: u64, answer: Seq<char> },
    RTCCandidate { to_id: u64, candidate: Seq<char> },
}

pub enum FrameView {
    Message(MessageView),
    Raw(Seq<char>),
    Ping,
    Close,
}

pub open spec fn users_view(users: Seq<User>) -> Seq<UserView> {
    users.map_values(|u: User| u@)
}

impl View for User {
    type V = UserView;

    open spec fn view(&self) -> UserView {
        UserView { id: self.id, name: self.name@ }
    }
}

impl View for Message {
    type V = MessageView;

    open spec fn view(&self) -> MessageView {
        match self {
            Message::Welcome { user_id } => MessageView::Welcome { user_id: *user_id },
            Message::UserList { users } => MessageView::UserList { users: users_view(users@) },
            Message::PeerStateChange { from_id, to_id, state } => MessageView::PeerStateChange {
                from_id: *from_id,
                to_id: *to_id,
                state: state@,
            },
            Message::ConnectionRequest { to_id } => MessageView::ConnectionRequest { to_id: *to_id },
            Message::ConnectionResponse { from_id } => MessageView::ConnectionResponse {
                from_id: *from_id,
            },
            Message::RTCOffer { to_id, offer } => MessageView::RTCOffer { to_id: *to_id, offer: offer@ },
            Message::RTCAnswer { to_id, answer } => MessageView::RTCAnswer {
                to_id: *to_id,
                answer: answer@,
            },
            Message::RTCCandidate { to_id, candidate } => MessageView::RTCCandidate {
                to_id: *to_id,
                candidate: candidate@,
            },
        }
    }
}

impl View for Frame {
    type V = FrameView;

    open spec fn view(&self) -> FrameView {
        match self {
            Frame::Message(m) => FrameView::Message(m@),
            Frame::Raw(s) => FrameView::Raw(s@),
            Frame::Ping => FrameView::Ping,
            Frame::Close => FrameView::Close,
        }
    }
}

/// The character of a decimal digit.
pub open spec fn digit_char(d: nat) -> char {
    if d == 0 { '0' }
    else if d == 1 { '1' }
    else if d == 2 { '2' }
    else if d == 3 { '3' }
    else if d == 4 { '4' }
    else if d == 5 { '5' }
    else if d == 6 { '6' }
    else if d == 7 { '7' }
    else if d == 8 { '8' }
    else { '9' }
}

/// The decimal notation of `n`, without leading zeros.
pub open spec fn decimal(n: nat) -> Seq<char>
    decreases n,
{
    if n < 10 {
        seq![digit_char(n)]
    } else {
        decimal(n / 10).push(digit_char(n % 10))
    }
}

/// The display name of connection `id`: `User ` followed by the id in decimal.
pub open spec fn user_name(id: u64) -> Seq<char> {
    seq!['U', 's', 'e', 'r', ' '] + decimal(id as nat)
}

/// The roster entry for connection `id`.
pub open spec fn user_of(id: u64) -> UserView {
    UserView { id, name: user_name(id) }
}

fn digit_str(d: u64) -> (r: &'static str)
    requires
        d < 10,
    ensures
        r@ == seq![digit_char(d as nat)],
{
    proof {
        reveal_strlit("0");
        reveal_strlit("1");
        reveal_strlit("2");
        reveal_strlit("3");
        reveal_strlit("4");
        reveal_strlit("5");
        reveal_strlit("6");
        reveal_strlit("7");
        reveal_strlit("8");
        reveal_strlit("9");
    }
    let r = if d == 0 { "0" }
    else if d == 1 { "1" }
    else if d == 2 { "2" }
    else if d == 3 { "3" }
    else if d == 4 { "4" }
    else if d == 5 { "5" }
    else if d == 6 { "6" }
    else if d == 7 { "7" }
    else if d == 8 { "8" }
    else { "9" };
    assert(r@ =~= seq![digit_char(d as nat)]);
    r
}

fn append_decimal(s: &mut String, n: u64)
    ensures
        final(s)@ == old(s)@ + decimal(n as nat),
    decreases n,
{
    if n >= 10 {
        append_decimal(s, n / 10);
    }
    s.append(digit_str(n % 10));
    proof {
        if n >= 10 {
            assert(final(s)@ =~= old(s)@ + decimal(n as nat));
        } else {
            assert(final(s)@ =~= old(s)@ + decimal(n as nat));
        }
    }
}

/// The display name of connection `id`.
pub fn user_name_of(id: u64) -> (r: String)
    ensures
        r@ == user_name(id),
{
    let mut s = String::from_str("User ");
    proof {
        reveal_strlit("User ");
        assert(s@ =~= seq!['U', 's', 'e', 'r', ' ']);
    }
    append_decimal(&mut s, id);
    s
}

/// A copy of a user list.
pub fn copy_users(users: &Vec<User>) -> (r: Vec<User>)
    ensures
        users_view(r@) == users_view(users@),
{
    let mut r: Vec<User> = Vec::new();
    let mut i: usize = 0;
    while i < users.len()
        invariant
            i <= users@.len(),
            r@.len() == i,
            forall|j: int| 0 <= j < i ==> r@[j]@ == #[trigger] users@[j]@,
        decreases users@.len() - i,
    {
        let u = User { id: users[i].id, name: users[i].name.clone() };
        r.push(u);
        i += 1;
    }
    assert(users_view(r@) =~= users_view(users@));
    r
}

} // verus!
