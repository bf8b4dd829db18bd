use vstd::prelude::*;

verus! {

pub struct OpenProcessRequest {
    pub pid: i32,
}

pub struct ReadMemoryRequest {
    pub address: usize,
    pub size: usize,
}

pub struct ResolveAddrRequest {
    pub query: String,
}

pub struct WriteMemoryRequest {
    pub address: usize,
    pub buffer: Vec<u8>,
}

pub struct ExploreDirectoryRequest {
    pub path: String,
    pub max_depth: i32,
}

pub struct ReadFileRequest {
    pub path: String,
}

pub struct SetWatchPointRequest {
    pub address: usize,
    pub size: usize,
    pub _type: String,
}

pub struct SetWatchPointResponse {
    pub success: bool,
    pub message: String,
}

pub struct RemoveWatchPointRequest {
    pub address: usize,
}

pub struct RemoveWatchPointResponse {
    pub success: bool,
    pub message: String,
}

pub struct SetBreakPointRequest {
    pub address: usize,
    pub hit_count: i32,
}

pub struct SetBreakPointResponse {
    pub success: bool,
    pub message: String,
}

pub struct RemoveBreakPointRequest {
    pub address: usize,
}

pub struct RemoveBreakPointResponse {
    pub success: bool,
    pub message: String,
}

} // verus!
