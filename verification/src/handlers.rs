pub mod memcache;
