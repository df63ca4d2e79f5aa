[package]
name = "http_serve"
version = "0.4.0"
edition = "2021"
publish = false

[dependencies]
bytes = "=1.12.1"
flate2 = "=1.1.10"
futures-core = "=0.3.34"
futures-util = "=0.3.34"
http = "=1.5.0"
http-body = "=1.1.0"
httpdate = "=1.0.3"
libc = "=0.2.191"
memchr = "=2.8.3"
smallvec = "=1.16.4"
sync_wrapper = "=1.0.2"
tokio = { version = "=1.54.1", features = ["rt", "rt-multi-thread"] }
winapi = { version = "0.3", features = ["errhandlingapi", "fileapi", "minwinbase", "winerror"] }
