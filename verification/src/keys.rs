//! The dictionary keys of torrent metadata and tracker replies, as bytes.

use vstd::prelude::*;

verus! {

/// The key `info`.
pub open spec fn info_key() -> Seq<u8> {
    seq![105u8, 110u8, 102u8, 111u8]
}

/// The key `info`, to look it up with.
pub fn info_key_bytes() -> (r: Vec<u8>)
    ensures
        r@ == info_key(),
{
    let r: Vec<u8> = vec![105u8, 110u8, 102u8, 111u8];
    proof {
        assert(r@ =~= info_key());
    }
    r
}

/// The key `announce`.
pub open spec fn announce_key() -> Seq<u8> {
    seq![97u8, 110u8, 110u8, 111u8, 117u8, 110u8, 99u8, 101u8]
}

/// The key `announce`, to look it up with.
pub fn announce_key_bytes() -> (r: Vec<u8>)
    ensures
        r@ == announce_key(),
{
    let r: Vec<u8> = vec![97u8, 110u8, 110u8, 111u8, 117u8, 110u8, 99u8, 101u8];
    proof {
        assert(r@ =~= announce_key());
    }
    r
}

/// The key `announce-list`.
pub open spec fn announce_list_key() -> Seq<u8> {
    seq![97u8, 110u8, 110u8, 111u8, 117u8, 110u8, 99u8, 101u8, 45u8, 108u8, 105u8, 115u8, 116u8]
}

/// The key `announce-list`, to look it up with.
pub fn announce_list_key_bytes() -> (r: Vec<u8>)
    ensures
        r@ == announce_list_key(),
{
    let r: Vec<u8> = vec![97u8, 110u8, 110u8, 111u8, 117u8, 110u8, 99u8, 101u8, 45u8, 108u8, 105u8, 115u8, 116u8];
    proof {
        assert(r@ =~= announce_list_key());
    }
    r
}

/// The key `url-list`.
pub open spec fn url_list_key() -> Seq<u8> {
    seq![117u8, 114u8, 108u8, 45u8, 108u8, 105u8, 115u8, 116u8]
}

/// The key `url-list`, to look it up with.
pub fn url_list_key_bytes() -> (r: Vec<u8>)
    ensures
        r@ == url_list_key(),
{
    let r: Vec<u8> = vec![117u8, 114u8, 108u8, 45u8, 108u8, 105u8, 115u8, 116u8];
    proof {
        assert(r@ =~= url_list_key());
    }
    r
}

/// The key `private`.
pub open spec fn private_key() -> Seq<u8> {
    seq![112u8, 114u8, 105u8, 118u8, 97u8, 116u8, 101u8]
}

/// The key `private`, to look it up with.
pub fn private_key_bytes() -> (r: Vec<u8>)
    ensures
        r@ == private_key(),
{
    let r: Vec<u8> = vec![112u8, 114u8, 105u8, 118u8, 97u8, 116u8, 101u8];
    proof {
        assert(r@ =~= private_key());
    }
    r
}

/// The key `name`.
pub open spec fn name_key() -> Seq<u8> {
    seq![110u8, 97u8, 109u8, 101u8]
}

/// The key `name`, to look it up with.
pub fn name_key_bytes() -> (r: Vec<u8>)
    ensures
        r@ == name_key(),
{
    let r: Vec<u8> = vec![110u8, 97u8, 109u8, 101u8];
    proof {
        assert(r@ =~= name_key());
    }
    r
}

/// The key `piece length`.
pub open spec fn piece_length_key() -> Seq<u8> {
    seq![112u8, 105u8, 101u8, 99u8, 101u8, 32u8, 108u8, 101u8, 110u8, 103u8, 116u8, 104u8]
}

/// The key `piece length`, to look it up with.
pub fn piece_length_key_bytes() -> (r: Vec<u8>)
    ensures
        r@ == piece_length_key(),
{
    let r: Vec<u8> = vec![112u8, 105u8, 101u8, 99u8, 101u8, 32u8, 108u8, 101u8, 110u8, 103u8, 116u8, 104u8];
    proof {
        assert(r@ =~= piece_length_key());
    }
    r
}

/// The key `pieces`.
pub open spec fn pieces_key() -> Seq<u8> {
    seq![112u8, 105u8, 101u8, 99u8, 101u8, 115u8]
}

/// The key `pieces`, to look it up with.
pub fn pieces_key_bytes() -> (r: Vec<u8>)
    ensures
        r@ == pieces_key(),
{
    let r: Vec<u8> = vec![112u8, 105u8, 101u8, 99u8, 101u8, 115u8];
    proof {
        assert(r@ =~= pieces_key());
    }
    r
}

/// The key `length`.
pub open spec fn length_key() -> Seq<u8> {
    seq![108u8, 101u8, 110u8, 103u8, 116u8, 104u8]
}

/// The key `length`, to look it up with.
pub fn length_key_bytes() -> (r: Vec<u8>)
    ensures
        r@ == length_key(),
{
    let r: Vec<u8> = vec![108u8, 101u8, 110u8, 103u8, 116u8, 104u8];
    proof {
        assert(r@ =~= length_key());
    }
    r
}

/// The key `files`.
pub open spec fn files_key() -> Seq<u8> {
    seq![102u8, 105u8, 108u8, 101u8, 115u8]
}

/// The key `files`, to look it up with.
pub fn files_key_bytes() -> (r: Vec<u8>)
    ensures
        r@ == files_key(),
{
    let r: Vec<u8> = vec![102u8, 105u8, 108u8, 101u8, 115u8];
    proof {
        assert(r@ =~= files_key());
    }
    r
}

/// The key `path`.
pub open spec fn path_key() -> Seq<u8> {
    seq![112u8, 97u8, 116u8, 104u8]
}

/// The key `path`, to look it up with.
pub fn path_key_bytes() -> (r: Vec<u8>)
    ensures
        r@ == path_key(),
{
    let r: Vec<u8> = vec![112u8, 97u8, 116u8, 104u8];
    proof {
        assert(r@ =~= path_key());
    }
    r
}

/// The key `comment`.
pub open spec fn comment_key() -> Seq<u8> {
    seq![99u8, 111u8, 109u8, 109u8, 101u8, 110u8, 116u8]
}

/// The key `comment`, to look it up with.
pub fn comment_key_bytes() -> (r: Vec<u8>)
    ensures
        r@ == comment_key(),
{
    let r: Vec<u8> = vec![99u8, 111u8, 109u8, 109u8, 101u8, 110u8, 116u8];
    proof {
        assert(r@ =~= comment_key());
    }
    r
}

/// The key `created by`.
pub open spec fn created_by_key() -> Seq<u8> {
    seq![99u8, 114u8, 101u8, 97u8, 116u8, 101u8, 100u8, 32u8, 98u8, 121u8]
}

/// The key `created by`, to look it up with.
pub fn created_by_key_bytes() -> (r: Vec<u8>)
    ensures
        r@ == created_by_key(),
{
    let r: Vec<u8> = vec![99u8, 114u8, 101u8, 97u8, 116u8, 101u8, 100u8, 32u8, 98u8, 121u8];
    proof {
        assert(r@ =~= created_by_key());
    }
    r
}

/// The key `failure reason`.
pub open spec fn failure_reason_key() -> Seq<u8> {
    seq![102u8, 97u8, 105u8, 108u8, 117u8, 114u8, 101u8, 32u8, 114u8, 101u8, 97u8, 115u8, 111u8, 110u8]
}

/// The key `failure reason`, to look it up with.
pub fn failure_reason_key_bytes() -> (r: Vec<u8>)
    ensures
        r@ == failure_reason_key(),
{
    let r: Vec<u8> = vec![102u8, 97u8, 105u8, 108u8, 117u8, 114u8, 101u8, 32u8, 114u8, 101u8, 97u8, 115u8, 111u8, 110u8];
    proof {
        assert(r@ =~= failure_reason_key());
    }
    r
}

/// The key `peers`.
pub open spec fn peers_key() -> Seq<u8> {
    seq![112u8, 101u8, 101u8, 114u8, 115u8]
}

/// The key `peers`, to look it up with.
pub fn peers_key_bytes() -> (r: Vec<u8>)
    ensures
        r@ == peers_key(),
{
    let r: Vec<u8> = vec![112u8, 101u8, 101u8, 114u8, 115u8];
    proof {
        assert(r@ =~= peers_key());
    }
    r
}

/// The key `interval`.
pub open spec fn interval_key() -> Seq<u8> {
    seq![105u8, 110u8, 116u8, 101u8, 114u8, 118u8, 97u8, 108u8]
}

/// The key `interval`, to look it up with.
pub fn interval_key_bytes() -> (r: Vec<u8>)
    ensures
        r@ == interval_key(),
{
    let r: Vec<u8> = vec![105u8, 110u8, 116u8, 101u8, 114u8, 118u8, 97u8, 108u8];
    proof {
        assert(r@ =~= interval_key());
    }
    r
}

/// The key `min interval`.
pub open spec fn min_interval_key() -> Seq<u8> {
    seq![109u8, 105u8, 110u8, 32u8, 105u8, 110u8, 116u8, 101u8, 114u8, 118u8, 97u8, 108u8]
}

/// The key `min interval`, to look it up with.
pub fn min_interval_key_bytes() -> (r: Vec<u8>)
    ensures
        r@ == min_interval_key(),
{
    let r: Vec<u8> = vec![109u8, 105u8, 110u8, 32u8, 105u8, 110u8, 116u8, 101u8, 114u8, 118u8, 97u8, 108u8];
    proof {
        assert(r@ =~= min_interval_key());
    }
    r
}

/// The key `tracker id`.
pub open spec fn tracker_id_key() -> Seq<u8> {
    seq![116u8, 114u8, 97u8, 99u8, 107u8, 101u8, 114u8, 32u8, 105u8, 100u8]
}

/// The key `tracker id`, to look it up with.
pub fn tracker_id_key_bytes() -> (r: Vec<u8>)
    ensures
        r@ == tracker_id_key(),
{
    let r: Vec<u8> = vec![116u8, 114u8, 97u8, 99u8, 107u8, 101u8, 114u8, 32u8, 105u8, 100u8];
    proof {
        assert(r@ =~= tracker_id_key());
    }
    r
}

/// The key `complete`.
pub open spec fn complete_key() -> Seq<u8> {
    seq![99u8, 111u8, 109u8, 112u8, 108u8, 101u8, 116u8, 101u8]
}

/// The key `complete`, to look it up with.
pub fn complete_key_bytes() -> (r: Vec<u8>)
    ensures
        r@ == complete_key(),
{
    let r: Vec<u8> = vec![99u8, 111u8, 109u8, 112u8, 108u8, 101u8, 116u8, 101u8];
    proof {
        assert(r@ =~= complete_key());
    }
    r
}

/// The key `incomplete`.
pub open spec fn incomplete_key() -> Seq<u8> {
    seq![105u8, 110u8, 99u8, 111u8, 109u8, 112u8, 108u8, 101u8, 116u8, 101u8]
}

/// The key `incomplete`, to look it up with.
pub fn incomplete_key_bytes() -> (r: Vec<u8>)
    ensures
        r@ == incomplete_key(),
{
    let r: Vec<u8> = vec![105u8, 110u8, 99u8, 111u8, 109u8, 112u8, 108u8, 101u8, 116u8, 101u8];
    proof {
        assert(r@ =~= incomplete_key());
    }
    r
}

/// The key `warning message`.
pub open spec fn warning_message_key() -> Seq<u8> {
    seq![119u8, 97u8, 114u8, 110u8, 105u8, 110u8, 103u8, 32u8, 109u8, 101u8, 115u8, 115u8, 97u8, 103u8, 101u8]
}

/// The key `warning message`, to look it up with.
pub fn warning_message_key_bytes() -> (r: Vec<u8>)
    ensures
        r@ == warning_message_key(),
{
    let r: Vec<u8> = vec![119u8, 97u8, 114u8, 110u8, 105u8, 110u8, 103u8, 32u8, 109u8, 101u8, 115u8, 115u8, 97u8, 103u8, 101u8];
    proof {
        assert(r@ =~= warning_message_key());
    }
    r
}

/// The key `downloaded`.
pub open spec fn downloaded_key() -> Seq<u8> {
    seq![100u8, 111u8, 119u8, 110u8, 108u8, 111u8, 97u8, 100u8, 101u8, 100u8]
}

/// The key `downloaded`, to look it up with.
pub fn downloaded_key_bytes() -> (r: Vec<u8>)
    ensures
        r@ == downloaded_key(),
{
    let r: Vec<u8> = vec![100u8, 111u8, 119u8, 110u8, 108u8, 111u8, 97u8, 100u8, 101u8, 100u8];
    proof {
        assert(r@ =~= downloaded_key());
    }
    r
}

/// The key `ip`.
pub open spec fn ip_key() -> Seq<u8> {
    seq![105u8, 112u8]
}

/// The key `ip`, to look it up with.
pub fn ip_key_bytes() -> (r: Vec<u8>)
    ensures
        r@ == ip_key(),
{
    let r: Vec<u8> = vec![105u8, 112u8];
    proof {
        assert(r@ =~= ip_key());
    }
    r
}

/// The key `port`.
pub open spec fn port_key() -> Seq<u8> {
    seq![112u8, 111u8, 114u8, 116u8]
}

/// The key `port`, to look it up with.
pub fn port_key_bytes() -> (r: Vec<u8>)
    ensures
        r@ == port_key(),
{
    let r: Vec<u8> = vec![112u8, 111u8, 114u8, 116u8];
    proof {
        assert(r@ =~= port_key());
    }
    r
}

} // verus!
