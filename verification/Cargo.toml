[package]
name = "laser_lockdown"
version = "0.1.0"
edition = "2021"
publish = false

[dependencies]
embassy-executor = "0.9.1"
embassy-futures = "0.1.2"
embassy-net = { version = "=0.9.1", features = ["tcp", "udp", "dns", "dhcpv4", "proto-ipv4", "medium-ethernet"] }
embassy-sync = "0.7.2"
embassy-time = "0.5.0"
embedded-hal-bus = "0.3.0"
embedded-sdmmc = { version = "0.9.0", default-features = false }
esp-alloc = { version = "0.9.0", features = ["esp32s3"] }
esp-backtrace = { version = "0.18.1", features = ["esp32s3", "println"] }
esp-bootloader-esp-idf = { version = "0.4.0", features = ["esp32s3"] }
esp-hal = { version = "=1.0.0", features = ["esp32s3", "unstable"] }
esp-println = { version = "0.16.1", features = ["esp32s3", "log-04"] }
esp-radio = { version = "0.17.0", features = ["esp32s3", "wifi"] }
esp-rtos = { version = "0.2.0", features = ["esp32s3", "embassy", "esp-radio"] }
heapless = { version = "=0.8.0", features = ["serde"] }
log = "0.4"
nb = "1.1.0"
picoserve = { version = "=0.20.1", features = ["embassy", "json"] }
serde = { version = "1.0", default-features = false, features = ["derive"] }
serde-json-core = "=0.6.0"
sntpc = "0.11.0"
sntpc-net-embassy = "0.11.0"
static_cell = "2.1.1"
