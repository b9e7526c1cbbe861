//! The configuration of a server.
use crate::index::IoResources;
use crate::text;
use vstd::prelude::*;
use vstd::string::StringExecFns;

verus! {

#[derive(Debug)]
pub struct Config {
    /// The address to listen on, as text.
    pub host: String,
    pub port: u16,
    pub bucket_count: usize,
    pub io_resources: IoResources,
}

impl Default for Config {
    fn default() -> (config: Self)
        ensures
            config.host@ == "127.0.0.1"@,
            config.port == 8080,
            config.bucket_count == 64,
            config.io_resources == (IoResources {
                tcp_streams: 1,
                http_connections: 0,
                http2_futures: 0,
            }),
    {
        Config {
            host: "127.0.0.1".to_owned(),
            port: 8080,
            bucket_count: 64,
            io_resources: IoResources::default(),
        }
    }
}

impl Config {
    /// The queue slots of all buckets can be numbered with 32 bits, and every bucket has one.
    pub open spec fn wf(&self) -> bool {
        &&& self.io_resources.wf()
        &&& self.bucket_count < u32::MAX
        &&& self.bucket_count * self.io_resources.slots() < u32::MAX
    }

    pub fn is_valid(&self) -> (result: bool)
        ensures
            result == self.wf(),
    {
        let io = self.io_resources;
        let limit: usize = u32::MAX as usize;
        if io.tcp_streams > limit || io.http_connections > limit - io.tcp_streams
            || io.http2_futures > limit - io.tcp_streams - io.http_connections {
            return false;
        }
        let slots: usize = io.per_bucket();
        if slots == 0 || self.bucket_count >= limit {
            return false;
        }
        match self.bucket_count.checked_mul(slots) {
            None => false,
            Some(capacity) => capacity < limit,
        }
    }

    /// The address that the server listens on.
    pub fn address(&self) -> (address: String)
        ensures
            address@ == self.host@ + ":"@ + text::decimal(self.port as nat),
    {
        let mut address = String::new();
        address.append(self.host.as_str());
        address.append(":");
        text::push_decimal(&mut address, self.port as u64);
        assert(address@ =~= self.host@ + ":"@ + text::decimal(self.port as nat));
        address
    }
}

/// How the search for a configuration file goes on.
#[derive(Debug)]
pub enum LoadStep {
    /// This is the content of the configuration file.
    Found(String),
    /// Look in the directory above.
    LookAbove,
    /// There is no configuration file.
    UseDefault,
}

/// The configuration file is the one in the nearest directory above the working directory that
/// has one.
pub fn load_step(content: Option<String>, has_parent: bool) -> (step: LoadStep)
    ensures
        step == (match content {
            Some(content) => LoadStep::Found(content),
            None => if has_parent {
                LoadStep::LookAbove
            } else {
                LoadStep::UseDefault
            },
        }),
{
    match content {
        Some(content) => LoadStep::Found(content),
        None => if has_parent {
            LoadStep::LookAbove
        } else {
            LoadStep::UseDefault
        },
    }
}

/// A configuration is valid exactly if a bucket has a queue slot, and all queue slots and buckets
/// can be numbered with 32 bits, with a number left over that stands for none.
pub proof fn law_valid_configurations_number_their_slots(config: Config, bucket: int, offset: int)
    ensures
        ({
            let io = config.io_resources;
            let slots = io.tcp_streams + io.http_connections + io.http2_futures;
            &&& config.wf() ==> slots > 0 && config.bucket_count < u32::MAX
            &&& config.wf() && 0 <= bucket < config.bucket_count && 0 <= offset < slots ==> bucket
                * slots + offset < u32::MAX
            &&& 0 < slots <= u32::MAX && config.bucket_count < u32::MAX && config.bucket_count
                * slots < u32::MAX ==> config.wf()
        }),
{
    let io = config.io_resources;
    let slots = io.tcp_streams + io.http_connections + io.http2_futures;
    if 0 <= bucket < config.bucket_count && 0 <= offset < slots {
        assert(bucket * slots + offset < config.bucket_count * slots) by (nonlinear_arith)
            requires
                0 <= bucket < config.bucket_count,
                0 <= offset < slots,
        ;
    }
}

} // verus!
