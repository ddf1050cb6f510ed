//! The QUIC relay protocol between the robot relay, the cloud relay and the operator
//! proxy: video stream framing, per-camera frame pacing, and peer roles.

use vstd::prelude::*;

use crate::wire::{be16, be32, lemma_be16_decode, lemma_be32_decode, u16_at, u32_at};

verus! {

/// Bytes before the JPEG on a video stream.
pub const VIDEO_HDR_LEN: usize = 8;

/// Size of one teleop control record (`TelemetryPacket`).
pub const TELEOP_PKT_LEN: usize = 112;

/// Cameras the pacing and stream numbering know of.
pub const CAMERA_SLOTS: usize = 4;

/// One second in nanoseconds.
pub const ONE_SECOND_NS: u64 = 1000000000;

/// The header of a video stream: camera index, a zero flags byte, the frame id and the
/// JPEG length, both big-endian.
pub open spec fn video_header(cam_index: u8, frame_id: u16, jpeg_len: u32) -> Seq<u8> {
    seq![cam_index, 0u8] + be16(frame_id) + be32(jpeg_len)
}

/// The header that opens a video stream.
pub fn encode_video_header(cam_index: u8, frame_id: u16, jpeg_len: u32) -> (r: [u8; 8])
    ensures
        r@ == video_header(cam_index, frame_id, jpeg_len),
{
    let r: [u8; 8] = [
        cam_index,
        0u8,
        ((frame_id >> 8u16) & 0xffu16) as u8,
        (frame_id & 0xffu16) as u8,
        ((jpeg_len >> 24u32) & 0xffu32) as u8,
        ((jpeg_len >> 16u32) & 0xffu32) as u8,
        ((jpeg_len >> 8u32) & 0xffu32) as u8,
        (jpeg_len & 0xffu32) as u8,
    ];
    assert(r@ =~= video_header(cam_index, frame_id, jpeg_len));
    r
}

/// What a received video stream carries for a proxy serving `n_cameras` cameras: the
/// camera index and the JPEG after the header; nothing when the stream is shorter than
/// the header or names an unknown camera.
pub open spec fn video_stream_frame(data: Seq<u8>, n_cameras: nat) -> Option<(nat, Seq<u8>)> {
    if data.len() < VIDEO_HDR_LEN || data[0] >= n_cameras {
        None
    } else {
        Some((data[0] as nat, data.skip(VIDEO_HDR_LEN as int)))
    }
}

/// The camera index and JPEG of a received video stream.
pub fn parse_video_stream(data: &[u8], n_cameras: usize) -> (r: Option<(usize, Vec<u8>)>)
    ensures
        match r {
            Some((cam, jpeg)) => video_stream_frame(data@, n_cameras as nat) == Some(
                (cam as nat, jpeg@),
            ),
            None => video_stream_frame(data@, n_cameras as nat) is None,
        },
{
    if data.len() < VIDEO_HDR_LEN {
        return None;
    }
    let cam: usize = data[0] as usize;
    if cam >= n_cameras {
        return None;
    }
    let mut jpeg: Vec<u8> = Vec::new();
    crate::wire::push_all(&mut jpeg, &data[VIDEO_HDR_LEN..data.len()]);
    assert(jpeg@ =~= data@.skip(VIDEO_HDR_LEN as int));
    Some((cam, jpeg))
}

/// A video stream made of a header and a JPEG is read back as that camera's JPEG; the
/// header also carries the frame id and the length, big-endian.
pub proof fn lemma_video_stream_round_trip(
    cam_index: u8,
    frame_id: u16,
    jpeg: Seq<u8>,
    n_cameras: nat,
)
    requires
        jpeg.len() <= u32::MAX,
    ensures
        video_stream_frame(video_header(cam_index, frame_id, jpeg.len() as u32) + jpeg, n_cameras)
            == if cam_index < n_cameras {
            Some((cam_index as nat, jpeg))
        } else {
            None
        },
        u16_at(video_header(cam_index, frame_id, jpeg.len() as u32), 2) == frame_id,
        u32_at(video_header(cam_index, frame_id, jpeg.len() as u32), 4) == jpeg.len(),
{
    let h = video_header(cam_index, frame_id, jpeg.len() as u32);
    let d = h + jpeg;
    assert(d[0] == cam_index);
    assert(d.skip(8) =~= jpeg);
    lemma_be16_decode(frame_id);
    lemma_be32_decode(jpeg.len() as u32);
    assert(h.subrange(2, 4) =~= be16(frame_id));
    assert(h.subrange(4, 8) =~= be32(jpeg.len() as u32));
    assert(u16_at(h, 2) == u16_at(be16(frame_id), 0));
    assert(u32_at(h, 4) == u32_at(be32(jpeg.len() as u32), 0));
}

/// The pacing interval for a target frame rate: none for 0 (unlimited).
pub open spec fn min_interval_for(target_fps: u32) -> u64 {
    if target_fps == 0 {
        0
    } else {
        (ONE_SECOND_NS / (target_fps as u64)) as u64
    }
}

/// Model of an [`FpsLimiter`].
pub struct FpsView {
    pub min_interval_ns: u64,
    pub last_sent_ns: Seq<u64>,
}

/// Per-camera frame pacing: a camera's frame passes when at least the interval has gone
/// by since the last frame that passed.
pub struct FpsLimiter {
    min_interval_ns: u64,
    last_sent_ns: [u64; 4],
}

impl View for FpsLimiter {
    type V = FpsView;

    closed spec fn view(&self) -> FpsView {
        FpsView { min_interval_ns: self.min_interval_ns, last_sent_ns: self.last_sent_ns@ }
    }
}

/// Whether a frame of camera `cam` passes at `now_ns`.
pub open spec fn fps_allows(v: FpsView, cam: nat, now_ns: u64) -> bool {
    v.min_interval_ns == 0 || cam >= CAMERA_SLOTS || (if now_ns >= v.last_sent_ns[cam as int] {
        now_ns - v.last_sent_ns[cam as int]
    } else {
        0
    }) >= v.min_interval_ns
}

impl FpsLimiter {
    /// A limiter for `target_fps` frames per second per camera (0: unlimited), created at
    /// `now_ns` with every camera last sent a second earlier.
    pub fn new(target_fps: u32, now_ns: u64) -> (r: Self)
        requires
            now_ns >= ONE_SECOND_NS,
        ensures
            r@.min_interval_ns == min_interval_for(target_fps),
            r@.last_sent_ns == seq![(now_ns - ONE_SECOND_NS) as u64; 4],
    {
        let min_interval_ns: u64 = if target_fps == 0 {
            0
        } else {
            ONE_SECOND_NS / (target_fps as u64)
        };
        let past: u64 = now_ns - ONE_SECOND_NS;
        let r = FpsLimiter { min_interval_ns, last_sent_ns: [past, past, past, past] };
        assert(r@.last_sent_ns =~= seq![past; 4]);
        r
    }

    /// Whether a frame of camera `cam` may go at `now_ns`; a paced camera whose frame
    /// passes remembers `now_ns`.
    pub fn allow(&mut self, cam: usize, now_ns: u64) -> (r: bool)
        ensures
            r == fps_allows(old(self)@, cam as nat, now_ns),
            final(self)@.min_interval_ns == old(self)@.min_interval_ns,
            final(self)@.last_sent_ns == if r && old(self)@.min_interval_ns != 0 && cam < CAMERA_SLOTS {
                old(self)@.last_sent_ns.update(cam as int, now_ns)
            } else {
                old(self)@.last_sent_ns
            },
    {
        if self.min_interval_ns == 0 || cam >= CAMERA_SLOTS {
            return true;
        }
        let elapsed: u64 = now_ns.saturating_sub(self.last_sent_ns[cam]);
        if elapsed >= self.min_interval_ns {
            self.last_sent_ns[cam] = now_ns;
            true
        } else {
            false
        }
    }
}

/// The two kinds of peer of the cloud relay.
#[derive(Clone, Copy, Debug, PartialEq, Eq, Structural)]
pub enum Role {
    Robot,
    Quest,
}

/// The ALPN by which the robot relay identifies itself: `teleop-robot`.
pub open spec fn robot_alpn_spec() -> Seq<u8> {
    seq![116u8, 101u8, 108u8, 101u8, 111u8, 112u8, 45u8, 114u8, 111u8, 98u8, 111u8, 116u8]
}

/// The ALPN by which the operator proxy identifies itself: `teleop-quest`.
pub open spec fn quest_alpn_spec() -> Seq<u8> {
    seq![116u8, 101u8, 108u8, 101u8, 111u8, 112u8, 45u8, 113u8, 117u8, 101u8, 115u8, 116u8]
}

/// The ALPN of the robot relay.
pub fn robot_alpn() -> (r: Vec<u8>)
    ensures
        r@ == robot_alpn_spec(),
{
    let r: Vec<u8> = vec![116u8, 101u8, 108u8, 101u8, 111u8, 112u8, 45u8, 114u8, 111u8, 98u8, 111u8, 116u8];
    assert(r@ =~= robot_alpn_spec());
    r
}

/// The ALPN of the operator proxy.
pub fn quest_alpn() -> (r: Vec<u8>)
    ensures
        r@ == quest_alpn_spec(),
{
    let r: Vec<u8> = vec![116u8, 101u8, 108u8, 101u8, 111u8, 112u8, 45u8, 113u8, 117u8, 101u8, 115u8, 116u8];
    assert(r@ =~= quest_alpn_spec());
    r
}

/// The role a negotiated ALPN stands for; none for another or a missing one.
pub open spec fn role_of(alpn: Option<Seq<u8>>) -> Option<Role> {
    match alpn {
        Some(a) => if a == robot_alpn_spec() {
            Some(Role::Robot)
        } else if a == quest_alpn_spec() {
            Some(Role::Quest)
        } else {
            None
        },
        None => None,
    }
}

fn bytes_equal(a: &[u8], b: &[u8]) -> (r: bool)
    ensures
        r == (a@ == b@),
{
    if a.len() != b.len() {
        return false;
    }
    let mut i: usize = 0;
    while i < a.len()
        invariant
            a@.len() == b@.len(),
            i <= a@.len(),
            forall|j: int| 0 <= j < i ==> a@[j] == b@[j],
        decreases a@.len() - i,
    {
        if a[i] != b[i] {
            return false;
        }
        i = i + 1;
    }
    assert(a@ =~= b@);
    true
}

/// The role of a peer from the ALPN it negotiated.
pub fn role_for_alpn(alpn: Option<&[u8]>) -> (r: Option<Role>)
    ensures
        r == role_of(
            match alpn {
                Some(a) => Some(a@),
                None => None,
            },
        ),
{
    match alpn {
        Some(a) => {
            let robot = robot_alpn();
            let quest = quest_alpn();
            if bytes_equal(a, robot.as_slice()) {
                Some(Role::Robot)
            } else if bytes_equal(a, quest.as_slice()) {
                Some(Role::Quest)
            } else {
                None
            }
        },
        None => None,
    }
}

/// The peer that traffic from `role` is forwarded to.
pub fn target_role(role: Role) -> (r: Role)
    ensures
        r != role,
{
    match role {
        Role::Robot => Role::Quest,
        Role::Quest => Role::Robot,
    }
}

} // verus!
