//! Service composition configuration: the ports of the ingest endpoint and
//! of the playback endpoint. The endpoints themselves are network servers
//! and live outside the verified core; this module only carries their
//! configuration values.

use vstd::prelude::*;

verus! {

/// Listen configuration of the ingest (publisher-facing) endpoint.
pub struct RtmpConfig {
    pub port: u16,
}

/// Listen configuration of the playback (consumer-facing) endpoint.
pub struct HlsConfig {
    pub port: u16,
}

/// The composed service: one ingest endpoint, one playback endpoint, and the
/// stream hub between them.
pub struct Service {
    pub rtmp_cfg: RtmpConfig,
    pub hls_cfg: HlsConfig,
}

impl Service {
    pub fn new(rtmp_port: u16, hls_port: u16) -> (s: Self)
        ensures
            s.rtmp_cfg.port == rtmp_port,
            s.hls_cfg.port == hls_port,
    {
        Self {
            rtmp_cfg: RtmpConfig { port: rtmp_port },
            hls_cfg: HlsConfig { port: hls_port },
        }
    }
}

} // verus!
