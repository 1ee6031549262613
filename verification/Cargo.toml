[package]
name = "jemalloc_pprof"
version = "0.6.0"
edition = "2021"
publish = false

[dependencies]
anyhow = "1"
axum = "0.7"
errno = "0.3"
flate2 = "1"
libc = "0.2"
mach2 = "0.4"
once_cell = "1"
prost = "0.13"
tempfile = "3"
tikv-jemalloc-ctl = { version = "0.5", features = ["use_std"] }
tikv-jemallocator = { version = "0.5", features = ["profiling", "unprefixed_malloc_on_supported_platforms"] }
tokio = { version = "1", features = ["macros", "net", "rt-multi-thread", "sync"] }
tracing = "0.1"
